use utxo_indexer::base58;
use utxo_indexer::base58_check;
use utxo_indexer::base64::decode as base64_decoder;
use utxo_indexer::base64::decode::Error as Base64Error;
use utxo_indexer::base64::encode::encode;

#[test]
fn encode_encode() {
    assert_eq!(base58::encode::encode(&[]), "");
    assert_eq!(base58::encode::encode(b"a"), "2g");
    assert_eq!(base58::encode::encode(b"bbb"), "a3gV");
    assert_eq!(base58::encode::encode(b"ccc"), "aPEr");
    assert_eq!(base58::encode::encode(b"simply a long string"), "2cFupjhnEsSn59qHXstmK2ffpLv2");
    assert_eq!(base58::encode::encode(b"simply a long string"), "2cFupjhnEsSn59qHXstmK2ffpLv2");
    assert_eq!(
        base58::encode::encode(&[
            0x00, 0xeb, 0x15, 0x23, 0x1d, 0xfc, 0xeb, 0x60, 0x92, 0x58, 0x86, 0xb6, 0x7d, 0x06, 0x52, 0x99, 0x92, 0x59, 0x15, 0xae,
            0xb1, 0x72, 0xc0, 0x66, 0x47,
        ]),
        "1NS17iag9jJgTHD1VXjvLCEnZuQ3rJDE9L"
    );
    assert_eq!(base58::encode::encode(&[0x51, 0x6b, 0x6f, 0xcd, 0x0f]), "ABnLTmg");
    assert_eq!(base58::encode::encode(&[0xbf, 0x4f, 0x89, 0x00, 0x1e, 0x67, 0x02, 0x74, 0xdd]), "3SEo3LWLoPntC");
    assert_eq!(base58::encode::encode(&[0x57, 0x2e, 0x47, 0x94]), "3EFU7m");
    assert_eq!(
        base58::encode::encode(&[0xec, 0xac, 0x89, 0xca, 0xd9, 0x39, 0x23, 0xc0, 0x23, 0x21]),
        "EJDM8drfXA6uyA"
    );
    assert_eq!(base58::encode::encode(&[0x10, 0xc8, 0x51, 0x1e]), "Rt5zm");
    assert_eq!(base58::encode::encode(&[0x00, 0x00, 0x00, 0x00, 0x00, 0x00, 0x00, 0x00, 0x00, 0x00]), "1111111111");
}

#[test]
fn decode_decode() {
    assert_eq!(base58::decode::decode(b""), Ok(vec![]));
    assert_eq!(base58::decode::decode(b"2g"), Ok(b"a".to_vec()));
    assert_eq!(base58::decode::decode(b"a3gV"), Ok(b"bbb".to_vec()));
    assert_eq!(base58::decode::decode(b"aPEr"), Ok(b"ccc".to_vec()));
    assert_eq!(base58::decode::decode(b"2cFupjhnEsSn59qHXstmK2ffpLv2"), Ok(b"simply a long string".to_vec()));
    assert_eq!(
        base58::decode::decode(b"1NS17iag9jJgTHD1VXjvLCEnZuQ3rJDE9L"),
        Ok(vec![
            0x00, 0xeb, 0x15, 0x23, 0x1d, 0xfc, 0xeb, 0x60, 0x92, 0x58, 0x86, 0xb6, 0x7d, 0x06, 0x52, 0x99, 0x92, 0x59, 0x15, 0xae,
            0xb1, 0x72, 0xc0, 0x66, 0x47,
        ])
    );
    assert_eq!(base58::decode::decode(b"ABnLTmg"), Ok(vec![0x51, 0x6b, 0x6f, 0xcd, 0x0f]));
    assert_eq!(base58::decode::decode(b"3SEo3LWLoPntC"), Ok(vec![0xbf, 0x4f, 0x89, 0x00, 0x1e, 0x67, 0x02, 0x74, 0xdd]));
    assert_eq!(base58::decode::decode(b"3EFU7m"), Ok(vec![0x57, 0x2e, 0x47, 0x94]));
    assert_eq!(
        base58::decode::decode(b"EJDM8drfXA6uyA"),
        Ok(vec![0xec, 0xac, 0x89, 0xca, 0xd9, 0x39, 0x23, 0xc0, 0x23, 0x21])
    );
    assert_eq!(base58::decode::decode(b"Rt5zm"), Ok(vec![0x10, 0xc8, 0x51, 0x1e]));
    assert_eq!(
        base58::decode::decode(b"1111111111"),
        Ok(vec![0x00, 0x00, 0x00, 0x00, 0x00, 0x00, 0x00, 0x00, 0x00, 0x00])
    );
}

#[test]
fn base58_decode_reports_invalid_character() {
    assert_eq!(
        base58::decode::decode(b"2g0"),
        Err(base58::decode::Error::InvalidCharacter { character: '0', index: 2 })
    );
    assert_eq!(
        base58::decode::decode(&[0x32, 0xff]),
        Err(base58::decode::Error::NonAsciiCharacter { index: 1, character: 0xff })
    );
}

#[test]
fn base58_encode_into_small_buffer() {
    let mut output = [0u8; 2];
    assert_eq!(base58::encode::encode_into(b"bbb", &mut output), Err(base58::encode::Error::BufferTooSmall));
    let mut output = [0u8; 6];
    assert_eq!(base58::encode::encode_into(b"bbb", &mut output), Ok(4));
    assert_eq!(&output[0..4], b"a3gV");
}

#[test]
fn base58_check_round_trip() {
    let payload = b"some payload".to_vec();
    let text = base58_check::encode::encode(&payload);
    assert_eq!(base58_check::decode::decode(text.as_bytes()), Ok(payload));
}

#[test]
fn base58_check_rejects_corruption() {
    let text = base58_check::encode::encode(b"some payload");
    let mut bytes = text.into_bytes();
    bytes[3] = if bytes[3] == b'2' { b'3' } else { b'2' };
    match base58_check::decode::decode(&bytes) {
        Err(base58_check::decode::Error::InvalidChecksum { checksum, expected_checksum }) => assert_ne!(checksum, expected_checksum),
        other => panic!("unexpected {:?}", other),
    }
}

#[test]
fn base58_check_no_checksum() {
    assert_eq!(base58_check::decode::decode(b"2g"), Err(base58_check::decode::Error::NoChecksum));
}

#[test]
fn base64_encode() {
    assert_eq!(encode(&[0x14, 0xfb, 0x9c, 0x03, 0xd9, 0x7e]), "FPucA9l+");
    assert_eq!(encode(&[0x14, 0xfb, 0x9c, 0x03, 0xd9]), "FPucA9k=");
    assert_eq!(encode(&[0x14, 0xfb, 0x9c, 0x03]), "FPucAw==");
    assert_eq!(encode(b""), "");
    assert_eq!(encode(b"f"), "Zg==");
    assert_eq!(encode(b"fo"), "Zm8=");
    assert_eq!(encode(b"foo"), "Zm9v");
    assert_eq!(encode(b"foob"), "Zm9vYg==");
    assert_eq!(encode(b"fooba"), "Zm9vYmE=");
    assert_eq!(encode(b"foobar"), "Zm9vYmFy");
}

#[test]
fn base64_decode() {
    let decode = base64_decoder::decode;
    assert_eq!(decode(b"FPucA9l+"), Ok(vec![0x14, 0xfb, 0x9c, 0x03, 0xd9, 0x7e]));
    assert_eq!(decode(b"FPucA9k="), Ok(vec![0x14, 0xfb, 0x9c, 0x03, 0xd9]));
    assert_eq!(decode(b"FPucAw=="), Ok(vec![0x14, 0xfb, 0x9c, 0x03]));
    assert_eq!(decode(b""), Ok(b"".to_vec()));
    assert_eq!(decode(b"Zg=="), Ok(b"f".to_vec()));
    assert_eq!(decode(b"Zm8="), Ok(b"fo".to_vec()));
    assert_eq!(decode(b"Zm9v"), Ok(b"foo".to_vec()));
    assert_eq!(decode(b"Zm9vYg=="), Ok(b"foob".to_vec()));
    assert_eq!(decode(b"Zm9vYmE="), Ok(b"fooba".to_vec()));
    assert_eq!(decode(b"Zm9vYmFy"), Ok(b"foobar".to_vec()));
}

#[test]
fn base64_decode_errors() {
    assert_eq!(base64_decoder::decode(b"Zm9*"), Err(Base64Error::InvalidCharacter { character: '*', index: 3 }));
    assert_eq!(base64_decoder::decode(&[0x5a, 0xc3]), Err(Base64Error::NonAsciiCharacter { character: 0xc3, index: 1 }));
    assert_eq!(base64_decoder::decode(b"Zh=="), Err(Base64Error::NonZeroTrailingBits));
    let mut small = [0u8; 2];
    assert_eq!(base64_decoder::decode_into(b"Zm9v", &mut small), Err(Base64Error::BufferTooSmall));
    let mut big = [0u8; 4];
    assert_eq!(base64_decoder::decode_into(b"Zm9v", &mut big), Ok(3));
    assert_eq!(&big[0..3], b"foo");
}
