use utxo_indexer::hex;
use utxo_indexer::reverse_hex;

#[test]
fn hex_encode() {
    let output = hex::encode(b"Hello world");
    assert_eq!(output, "48656c6c6f20776f726c64");
}

#[test]
fn hex_decode() {
    let output = hex::decode(b"48656c6c6f20776f726c64");
    assert_eq!(output, Ok(vec![0x48, 0x65, 0x6c, 0x6c, 0x6f, 0x20, 0x77, 0x6f, 0x72, 0x6c, 0x64]));
}

#[test]
fn hex_decode_into() {
    let mut output = [0u8; 11];
    let len = hex::decode_into(b"48656c6c6f20776f726c64", &mut output);
    assert_eq!(len, Ok(11));
    assert_eq!(output, [0x48, 0x65, 0x6c, 0x6c, 0x6f, 0x20, 0x77, 0x6f, 0x72, 0x6c, 0x64]);
}

#[test]
fn reverse_hex_encode() {
    let output = reverse_hex::encode(b"Hello world");
    assert_eq!(output, "646c726f77206f6c6c6548");
}

#[test]
fn reverse_hex_decode() {
    let output = reverse_hex::decode(b"48656c6c6f20776f726c64");
    assert_eq!(output, Ok(vec![0x64, 0x6c, 0x72, 0x6f, 0x77, 0x20, 0x6f, 0x6c, 0x6c, 0x65, 0x48]));
}

#[test]
fn reverse_hex_decode_into() {
    let mut output = [0u8; 11];
    let len = reverse_hex::decode_into(b"48656c6c6f20776f726c64", &mut output);
    assert_eq!(len, Ok(11));
    assert_eq!(output, [0x64, 0x6c, 0x72, 0x6f, 0x77, 0x20, 0x6f, 0x6c, 0x6c, 0x65, 0x48]);
}

#[test]
fn hex_decode_rejects_odd_length() {
    assert_eq!(hex::decode(b"abc"), Err(hex::Error::OddLength));
}

#[test]
fn hex_decode_reports_first_invalid_character() {
    assert_eq!(
        hex::decode(b"0g1z"),
        Err(hex::Error::InvalidHexCharacter { character: 'g', index: 1 })
    );
}

#[test]
fn hex_decode_into_small_buffer() {
    let mut output = [0u8; 2];
    assert_eq!(hex::decode_into(b"aabbcc", &mut output), Err(hex::Error::BufferTooSmall));
}

#[test]
fn hex_decode_upper_case() {
    assert_eq!(hex::decode(b"ABCDEF"), Ok(vec![0xab, 0xcd, 0xef]));
}

#[test]
fn hex_empty() {
    assert_eq!(hex::encode(b""), "");
    assert_eq!(hex::decode(b""), Ok(vec![]));
}
