use vstd::prelude::*;
use crate::base58::base58_characters;
use crate::base58::decode::decode_result;
use crate::base58_check::decode::checked;
use crate::base58_check::encode::check_text;
use crate::error::Error;
use crate::text::ascii_chars;
use vstd::string::StringSliceAdditionalSpecFns;
use crate::hashmap::MapKey;
use crate::transaction_output::{fold_bytes, fold_hash, same_bytes};

verus! {

/// The recipient of an output: the 20-byte hash of a public key or of a script.
#[derive(Copy, Clone, Debug, PartialEq, Eq, Hash)]
pub enum Address {
    P2PKH([u8; 20]),
    P2SH([u8; 20]),
}

/// A P2PKH script: `76 A9 14 <20 bytes> 88 AC`.
pub open spec fn is_p2pkh_script(s: Seq<u8>) -> bool {
    s.len() == 25 && s[0] == 0x76 && s[1] == 0xA9 && s[2] == 0x14 && s[23] == 0x88 && s[24] == 0xAC
}

/// A P2SH script: `A9 14 <20 bytes> 87`.
pub open spec fn is_p2sh_script(s: Seq<u8>) -> bool {
    s.len() == 23 && s[0] == 0xA9 && s[1] == 0x14 && s[22] == 0x87
}

/// The version byte of the 21-byte form: 0 for P2PKH, 5 for P2SH.
pub open spec fn version_of(a: Address) -> u8 {
    match a {
        Address::P2PKH(_) => 0,
        Address::P2SH(_) => 5,
    }
}

pub open spec fn hash_of(a: Address) -> Seq<u8> {
    match a {
        Address::P2PKH(h) => h@,
        Address::P2SH(h) => h@,
    }
}

/// An address as its version byte and its hash.
pub open spec fn address_parts(a: Address) -> (u8, Seq<u8>) {
    (version_of(a), hash_of(a))
}

/// The version and hash of the address that an output script pays to, if
/// the script has one of the two templates.
pub open spec fn script_address(s: Seq<u8>) -> Option<(u8, Seq<u8>)> {
    if is_p2pkh_script(s) {
        Some((0u8, s.subrange(3, 23)))
    } else if is_p2sh_script(s) {
        Some((5u8, s.subrange(2, 22)))
    } else {
        None
    }
}

/// The 21-byte form `[version | hash]`.
pub open spec fn address_bytes(a: Address) -> Seq<u8> {
    seq![version_of(a)] + hash_of(a)
}

/// The version and hash that a 21-byte form holds, if it is one.
pub open spec fn address_from_bytes(b: Seq<u8>) -> Option<(u8, Seq<u8>)> {
    if b.len() == 21 && (b[0] == 0 || b[0] == 5) {
        Some((b[0], b.subrange(1, 21)))
    } else {
        None
    }
}

/// The array that holds the 20 bytes of `s`.
pub open spec fn array20(s: Seq<u8>) -> [u8; 20] {
    choose|h: [u8; 20]| h@ == s
}

/// The address with the given version and hash.
pub open spec fn address_with(parts: (u8, Seq<u8>)) -> Address {
    if parts.0 == 0 {
        Address::P2PKH(array20(parts.1))
    } else {
        Address::P2SH(array20(parts.1))
    }
}

/// The address that an output script pays to, if any.
pub open spec fn script_recipient(s: Seq<u8>) -> Option<Address> {
    match script_address(s) {
        Some(parts) => Some(address_with(parts)),
        None => None,
    }
}

/// An array is the array of its own bytes.
pub proof fn lemma_array20(h: [u8; 20])
    ensures
        array20(h@) == h,
{
    let g = array20(h@);
    assert(exists|x: [u8; 20]| x@ == h@);
    assert(g@ =~= h@);
    vstd::array::axiom_array_ext_equal(g, h);
}

/// An address is rebuilt from its version and hash.
pub proof fn lemma_address_with_parts(a: Address)
    ensures
        address_with(address_parts(a)) == a,
{
    match a {
        Address::P2PKH(h) => lemma_array20(h),
        Address::P2SH(h) => lemma_array20(h),
    }
}

/// An address is fixed by its version and hash.
pub proof fn lemma_address_parts_injective(a: Address, b: Address)
    requires
        address_parts(a) == address_parts(b),
    ensures
        a == b,
{
    match (a, b) {
        (Address::P2PKH(x), Address::P2PKH(y)) => vstd::array::axiom_array_ext_equal(x, y),
        (Address::P2SH(x), Address::P2SH(y)) => vstd::array::axiom_array_ext_equal(x, y),
        _ => {},
    }
}

/// The 21-byte form of an address reads back as that address.
pub proof fn lemma_address_bytes_round_trip(a: Address)
    ensures
        address_from_bytes(address_bytes(a)) == Some(address_parts(a)),
{
    let b = address_bytes(a);
    assert(b.subrange(1, 21) =~= hash_of(a));
}

/// Copies `source[start..start + 20]` into an array.
fn hash20(source: &[u8], start: usize) -> (r: [u8; 20])
    requires
        start + 20 <= source@.len(),
    ensures
        r@ == source@.subrange(start as int, start + 20),
{
    let n = source.len();
    let mut h = [0u8; 20];
    let mut i: usize = 0;
    while i < 20
        invariant
            n == source@.len(),
            i <= 20,
            start + 20 <= source@.len(),
            h@.len() == 20,
            forall|j: int| 0 <= j < i ==> h@[j] == source@[start + j],
        decreases 20 - i,
    {
        h[i] = source[start + i];
        i = i + 1;
    }
    assert(h@ =~= source@.subrange(start as int, start + 20));
    h
}

impl Address {
    /// The address that an output script pays to.
    pub fn from_script(script: &[u8]) -> (r: Result<Address, Error>)
        ensures
            match r {
                Ok(a) => script_address(script@) == Some(address_parts(a)) && script_recipient(script@) == Some(a),
                Err(_) => script_address(script@) is None && script_recipient(script@) is None,
            },
    {
        if script.len() == 25 && script[0] == 0x76 && script[1] == 0xA9 && script[2] == 0x14
            && script[23] == 0x88 && script[24] == 0xAC {
            let h = hash20(script, 3);
            proof {
                lemma_address_with_parts(Address::P2PKH(h));
            }
            return Ok(Address::P2PKH(h));
        }
        if script.len() == 23 && script[0] == 0xA9 && script[1] == 0x14 && script[22] == 0x87 {
            let h = hash20(script, 2);
            proof {
                lemma_address_with_parts(Address::P2SH(h));
            }
            return Ok(Address::P2SH(h));
        }
        Err(Error::new("Invalid address script"))
    }

    /// The address whose 21-byte form `[version | hash]` is `buffer`.
    pub fn from_slice(buffer: &[u8]) -> (r: Result<Address, Error>)
        ensures
            match r {
                Ok(a) => address_from_bytes(buffer@) == Some(address_parts(a)),
                Err(_) => address_from_bytes(buffer@) is None,
            },
    {
        if buffer.len() == 21 {
            if buffer[0] == 0 {
                let h = hash20(buffer, 1);
                Ok(Address::P2PKH(h))
            } else if buffer[0] == 5 {
                let h = hash20(buffer, 1);
                Ok(Address::P2SH(h))
            } else {
                Err(Error::new("Invalid address buffer"))
            }
        } else {
            Err(Error::new("Address buffer must be 21 bytes long"))
        }
    }

    /// The address whose base58-check text is `string`.
    pub fn from_string(string: &str) -> (r: Result<Address, Error>)
        ensures
            match r {
                Ok(a) => exists|b: Seq<u8>| checked(decode_result(base58_characters(), string.spec_bytes()), Ok(b))
                    && address_from_bytes(b) == Some(address_parts(a)),
                Err(_) => forall|b: Seq<u8>| checked(decode_result(base58_characters(), string.spec_bytes()), Ok(b))
                    ==> address_from_bytes(b) is None,
            },
    {
        let payload = match crate::base58_check::decode::decode(string.as_bytes()) {
            Ok(p) => p,
            Err(_) => return Err(Error::new("Invalid base58-check address")),
        };
        Self::from_slice(payload.as_slice())
    }

    /// The base58-check text of the 21-byte form.
    pub fn to_string(&self) -> (r: String)
        ensures
            r@ == ascii_chars(check_text(base58_characters(), address_bytes(*self))),
    {
        crate::base58_check::encode::encode(self.to_vec().as_slice())
    }

    /// The 21-byte form `[version | hash]`.
    pub fn to_vec(&self) -> (r: Vec<u8>)
        ensures
            r@ == address_bytes(*self),
    {
        let (version, hash) = match self {
            Address::P2PKH(hash) => (0u8, hash),
            Address::P2SH(hash) => (5u8, hash),
        };
        let mut v: Vec<u8> = Vec::new();
        v.push(version);
        let mut i: usize = 0;
        while i < 20
            invariant
                i <= 20,
                hash@.len() == 20,
                hash@ == hash_of(*self),
                version == version_of(*self),
                v@ =~= seq![version] + hash@.subrange(0, i as int),
            decreases 20 - i,
        {
            v.push(hash[i]);
            i = i + 1;
        }
        assert(hash@.subrange(0, 20) =~= hash@);
        v
    }
}

impl MapKey for Address {
    open spec fn spec_fold(&self) -> u64 {
        fold_bytes(hash_of(*self))
    }

    fn fold(&self) -> (r: u64) {
        match self {
            Address::P2PKH(h) => fold_hash(h),
            Address::P2SH(h) => fold_hash(h),
        }
    }

    fn same_key(&self, other: &Self) -> (r: bool) {
        match (self, other) {
            (Address::P2PKH(a), Address::P2PKH(b)) => same_bytes(a, b),
            (Address::P2SH(a), Address::P2SH(b)) => same_bytes(a, b),
            _ => false,
        }
    }
}

} // verus!
