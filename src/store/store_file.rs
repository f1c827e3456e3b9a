use vstd::prelude::*;
use crate::address::{address_bytes, address_from_bytes, address_parts, address_with, lemma_address_bytes_round_trip, lemma_address_with_parts, Address};
use crate::block::{header_view, BlockHeader};
use crate::buffer_writer::{le_bytes, lemma_le_round_trip};
use crate::hashing_buffer_reader::{le_value, pow256};
use crate::hashmap::{entries_map, keys_of};
use crate::store::transaction_store_backend_trait::OutputRecord;
use crate::transaction_output::TransactionOutput;

verus! {

/// An unspent output as the store file holds it: the transaction's hash, the
/// output's index, its value, and its address as version and hash.
pub type UtxoView = (Seq<u8>, u32, u64, Option<(u8, Seq<u8>)>);

pub open spec fn utxo_view(e: (TransactionOutput, OutputRecord)) -> UtxoView {
    (e.0.hash@, e.0.index, e.1.0, match e.1.1 {
        Some(a) => Some(address_parts(a)),
        None => None,
    })
}

pub open spec fn encode_header(h: BlockHeader) -> Seq<u8> {
    h.hash@ + h.previous_block_hash@
}

pub open spec fn encode_headers(hs: Seq<BlockHeader>) -> Seq<u8>
    decreases hs.len(),
{
    if hs.len() == 0 {
        Seq::empty()
    } else {
        encode_headers(hs.drop_last()) + encode_header(hs.last())
    }
}

pub open spec fn encode_address(a: Option<Address>) -> Seq<u8> {
    match a {
        Some(a) => seq![1u8] + address_bytes(a),
        None => seq![0u8],
    }
}

/// An unspent output: hash, index (4 bytes), value (8 bytes), a flag, and the
/// 21-byte address when the flag is set.
pub open spec fn encode_utxo(e: (TransactionOutput, OutputRecord)) -> Seq<u8> {
    e.0.hash@ + le_bytes(e.0.index as nat, 4) + le_bytes(e.1.0 as nat, 8) + encode_address(e.1.1)
}

pub open spec fn encode_utxos(es: Seq<(TransactionOutput, OutputRecord)>) -> Seq<u8>
    decreases es.len(),
{
    if es.len() == 0 {
        Seq::empty()
    } else {
        encode_utxos(es.drop_last()) + encode_utxo(es.last())
    }
}

/// The store file: the header count, the headers, the output count, the
/// outputs; integers little-endian.
pub open spec fn encode_store(hs: Seq<BlockHeader>, es: Seq<(TransactionOutput, OutputRecord)>) -> Seq<u8> {
    le_bytes(hs.len(), 4) + encode_headers(hs) + le_bytes(es.len(), 4) + encode_utxos(es)
}

pub open spec fn spec_headers_at(buf: Seq<u8>, off: int, n: nat) -> Option<(Seq<(Seq<u8>, Seq<u8>)>, int)>
    decreases n,
{
    if n == 0 {
        Some((Seq::empty(), off))
    } else {
        match spec_headers_at(buf, off, (n - 1) as nat) {
            Some((s, p)) => if 0 <= p && p + 64 <= buf.len() {
                Some((s.push((buf.subrange(p, p + 32), buf.subrange(p + 32, p + 64))), p + 64))
            } else {
                None
            },
            None => None,
        }
    }
}

pub open spec fn spec_utxo(buf: Seq<u8>, off: int) -> Option<(UtxoView, int)> {
    if off < 0 || off + 45 > buf.len() {
        None
    } else {
        let hash = buf.subrange(off, off + 32);
        let index = le_value(buf.subrange(off + 32, off + 36)) as u32;
        let value = le_value(buf.subrange(off + 36, off + 44)) as u64;
        if buf[off + 44] == 0 {
            Some(((hash, index, value, None), off + 45))
        } else if off + 66 <= buf.len() && address_from_bytes(buf.subrange(off + 45, off + 66)) is Some {
            Some(((hash, index, value, address_from_bytes(buf.subrange(off + 45, off + 66))), off + 66))
        } else {
            None
        }
    }
}

pub open spec fn spec_utxos(buf: Seq<u8>, off: int, n: nat) -> Option<(Seq<UtxoView>, int)>
    decreases n,
{
    if n == 0 {
        Some((Seq::empty(), off))
    } else {
        match spec_utxos(buf, off, (n - 1) as nat) {
            Some((s, p)) => match spec_utxo(buf, p) {
                Some((u, q)) => Some((s.push(u), q)),
                None => None,
            },
            None => None,
        }
    }
}

/// What a store file holds: its headers and its outputs.
pub open spec fn spec_store_file(buf: Seq<u8>) -> Option<(Seq<(Seq<u8>, Seq<u8>)>, Seq<UtxoView>)> {
    if buf.len() < 4 {
        None
    } else {
        match spec_headers_at(buf, 4, le_value(buf.subrange(0, 4))) {
            Some((hs, p)) => if p + 4 <= buf.len() {
                match spec_utxos(buf, p + 4, le_value(buf.subrange(p, p + 4))) {
                    Some((us, _)) => Some((hs, us)),
                    None => None,
                }
            } else {
                None
            },
            None => None,
        }
    }
}

/// The array that holds the 32 bytes of `s`.
pub open spec fn array32(s: Seq<u8>) -> [u8; 32] {
    choose|h: [u8; 32]| h@ == s
}

pub proof fn lemma_array32(h: [u8; 32])
    ensures
        array32(h@) == h,
{
    let g = array32(h@);
    assert(exists|x: [u8; 32]| x@ == h@);
    assert(g@ =~= h@);
    vstd::array::axiom_array_ext_equal(g, h);
}

/// The output and record that a view in the store file stands for.
pub open spec fn utxo_entry(u: UtxoView) -> (TransactionOutput, OutputRecord) {
    (TransactionOutput { hash: array32(u.0), index: u.1 }, (u.2, match u.3 {
        Some(parts) => Some(address_with(parts)),
        None => None,
    }))
}

/// The unspent outputs after adding those of the store file in order.
pub open spec fn utxos_map(us: Seq<UtxoView>) -> Map<TransactionOutput, OutputRecord>
    decreases us.len(),
{
    if us.len() == 0 {
        Map::empty()
    } else {
        utxos_map(us.drop_last()).insert(utxo_entry(us.last()).0, utxo_entry(us.last()).1)
    }
}

/// Headers given as views are linked.
pub open spec fn header_views_linked(hs: Seq<(Seq<u8>, Seq<u8>)>) -> bool {
    forall|i: int| 0 < i < hs.len() ==> #[trigger] hs[i].1 == hs[i - 1].0
}

proof fn lemma_headers_parse(pre: Seq<u8>, hs: Seq<BlockHeader>, post: Seq<u8>)
    ensures
        spec_headers_at(pre + encode_headers(hs) + post, pre.len() as int, hs.len())
            == Some((hs.map_values(|h: BlockHeader| header_view(h)), (pre.len() + 64 * hs.len()) as int)),
        encode_headers(hs).len() == 64 * hs.len(),
    decreases hs.len(),
{
    if hs.len() > 0 {
        let last = hs.last();
        let rest = hs.drop_last();
        lemma_headers_parse(pre, rest, encode_header(last) + post);
        let buf = pre + encode_headers(hs) + post;
        assert(pre + encode_headers(rest) + (encode_header(last) + post) =~= buf);
        let p: int = (pre.len() + 64 * rest.len()) as int;
        assert(buf.subrange(p, p + 32) =~= last.hash@);
        assert(buf.subrange(p + 32, p + 64) =~= last.previous_block_hash@);
        assert(hs.map_values(|h: BlockHeader| header_view(h))
            =~= rest.map_values(|h: BlockHeader| header_view(h)).push(header_view(last)));
    }
}

proof fn lemma_utxo_parse(pre: Seq<u8>, e: (TransactionOutput, OutputRecord), post: Seq<u8>)
    ensures
        spec_utxo(pre + encode_utxo(e) + post, pre.len() as int) == Some((utxo_view(e), (pre.len() + encode_utxo(e).len()) as int)),
{
    let buf = pre + encode_utxo(e) + post;
    let o = pre.len() as int;
    assert(pow256(4) == 0x1_0000_0000 && pow256(8) == 0x1_0000_0000_0000_0000) by {
        assert(pow256(0) == 1);
        assert(pow256(1) == 0x100);
        assert(pow256(2) == 0x1_0000);
        assert(pow256(3) == 0x100_0000);
        assert(pow256(4) == 0x1_0000_0000);
        assert(pow256(5) == 0x100_0000_0000);
        assert(pow256(6) == 0x1_0000_0000_0000);
        assert(pow256(7) == 0x100_0000_0000_0000);
        assert(pow256(8) == 0x1_0000_0000_0000_0000);
    }
    lemma_le_round_trip(e.0.index as nat, 4);
    lemma_le_round_trip(e.1.0 as nat, 8);
    assert(buf.subrange(o, o + 32) =~= e.0.hash@);
    assert(buf.subrange(o + 32, o + 36) =~= le_bytes(e.0.index as nat, 4));
    assert(buf.subrange(o + 36, o + 44) =~= le_bytes(e.1.0 as nat, 8));
    match e.1.1 {
        Some(a) => {
            assert(buf[o + 44] == 1);
            assert(buf.subrange(o + 45, o + 66) =~= address_bytes(a));
            lemma_address_bytes_round_trip(a);
        },
        None => {
            assert(buf[o + 44] == 0);
        },
    }
}

pub proof fn lemma_utxos_parse(pre: Seq<u8>, es: Seq<(TransactionOutput, OutputRecord)>, post: Seq<u8>)
    ensures
        spec_utxos(pre + encode_utxos(es) + post, pre.len() as int, es.len())
            == Some((es.map_values(|e: (TransactionOutput, OutputRecord)| utxo_view(e)), (pre.len() + encode_utxos(es).len()) as int)),
    decreases es.len(),
{
    if es.len() > 0 {
        let last = es.last();
        let rest = es.drop_last();
        lemma_utxos_parse(pre, rest, encode_utxo(last) + post);
        let buf = pre + encode_utxos(es) + post;
        assert(pre + encode_utxos(rest) + (encode_utxo(last) + post) =~= buf);
        lemma_utxo_parse(pre + encode_utxos(rest), last, post);
        assert(pre + encode_utxos(rest) + encode_utxo(last) + post =~= buf);
        assert(es.map_values(|e: (TransactionOutput, OutputRecord)| utxo_view(e))
            =~= rest.map_values(|e: (TransactionOutput, OutputRecord)| utxo_view(e)).push(utxo_view(last)));
    }
}

proof fn lemma_utxo_entry(e: (TransactionOutput, OutputRecord))
    ensures
        utxo_entry(utxo_view(e)) == e,
{
    lemma_array32(e.0.hash);
    match e.1.1 {
        Some(a) => lemma_address_with_parts(a),
        None => {},
    }
}

pub proof fn lemma_utxos_map(es: Seq<(TransactionOutput, OutputRecord)>)
    requires
        keys_of(es).no_duplicates(),
    ensures
        utxos_map(es.map_values(|e: (TransactionOutput, OutputRecord)| utxo_view(e))) == entries_map(es),
    decreases es.len(),
{
    if es.len() == 0 {
        assert(entries_map(es) =~= Map::empty());
    } else {
        let rest = es.drop_last();
        assert(keys_of(rest) =~= keys_of(es).drop_last());
        lemma_utxos_map(rest);
        assert(es.map_values(|e: (TransactionOutput, OutputRecord)| utxo_view(e)).drop_last()
            =~= rest.map_values(|e: (TransactionOutput, OutputRecord)| utxo_view(e)));
        lemma_utxo_entry(es.last());
        assert(es =~= rest.push(es.last()));
        assert(!keys_of(rest).contains(es.last().0)) by {
            if keys_of(rest).contains(es.last().0) {
                let j = choose|j: int| 0 <= j < keys_of(rest).len() && keys_of(rest)[j] == es.last().0;
                assert(keys_of(es)[j] == keys_of(es)[es.len() - 1]);
            }
        }
        crate::hashmap::lemma_push_entry(rest, es.last().0, es.last().1);
    }
}

pub proof fn lemma_utxos_fail(buf: Seq<u8>, off: int, k: nat, n: nat)
    requires
        spec_utxos(buf, off, k) is None,
        k <= n,
    ensures
        spec_utxos(buf, off, n) is None,
    decreases n,
{
    if k < n {
        lemma_utxos_fail(buf, off, k, (n - 1) as nat);
    }
}

pub proof fn lemma_headers_fail(buf: Seq<u8>, off: int, k: nat, n: nat)
    requires
        spec_headers_at(buf, off, k) is None,
        k <= n,
    ensures
        spec_headers_at(buf, off, n) is None,
    decreases n,
{
    if k < n {
        lemma_headers_fail(buf, off, k, (n - 1) as nat);
    }
}

pub proof fn lemma_utxo_entry_of(hash: [u8; 32], index: u32, value: u64, address: Option<Address>)
    ensures
        utxo_entry(utxo_view((TransactionOutput { hash, index }, (value, address))))
            == (TransactionOutput { hash, index }, (value, address)),
{
    lemma_utxo_entry((TransactionOutput { hash, index }, (value, address)));
}

/// A store written to its file reads back as the same store: the same
/// headers, and the same unspent outputs with their values and addresses.
pub proof fn lemma_store_file_round_trip(hs: Seq<BlockHeader>, es: Seq<(TransactionOutput, OutputRecord)>)
    requires
        keys_of(es).no_duplicates(),
        hs.len() <= u32::MAX,
        es.len() <= u32::MAX,
    ensures
        spec_store_file(encode_store(hs, es)) == Some((
            hs.map_values(|h: BlockHeader| header_view(h)),
            es.map_values(|e: (TransactionOutput, OutputRecord)| utxo_view(e)),
        )),
        utxos_map(es.map_values(|e: (TransactionOutput, OutputRecord)| utxo_view(e))) == entries_map(es),
{
    let buf = encode_store(hs, es);
    assert(pow256(4) == 0x1_0000_0000) by {
        assert(pow256(0) == 1);
        assert(pow256(1) == 0x100);
        assert(pow256(2) == 0x1_0000);
        assert(pow256(3) == 0x100_0000);
        assert(pow256(4) == 0x1_0000_0000);
    }
    lemma_le_round_trip(hs.len(), 4);
    lemma_le_round_trip(es.len(), 4);
    let count_h = le_bytes(hs.len(), 4);
    let count_u = le_bytes(es.len(), 4);
    lemma_headers_parse(count_h, hs, count_u + encode_utxos(es));
    assert(count_h + encode_headers(hs) + (count_u + encode_utxos(es)) =~= buf);
    assert(buf.subrange(0, 4) =~= count_h);
    let p: int = (4 + 64 * hs.len()) as int;
    assert(buf.subrange(p, p + 4) =~= count_u);
    lemma_utxos_parse(count_h + encode_headers(hs) + count_u, es, Seq::empty());
    assert(count_h + encode_headers(hs) + count_u + encode_utxos(es) + Seq::<u8>::empty() =~= buf);
    lemma_utxos_map(es);
}

} // verus!
