use beetle::change::FileIndexMetadata;
use beetle::codec::{decode, encode, CodecError};

fn rec(path: &str, size: u64, modified_time: u64) -> FileIndexMetadata {
    FileIndexMetadata {
        path: path.to_string(),
        size,
        modified_time,
    }
}

#[test]
fn test_encode_decode_empty() {
    let records = vec![];

    let encoded = encode(&records).unwrap();
    let decoded = decode(&encoded).unwrap();

    assert_eq!(decoded, records);
}

#[test]
fn test_encode_decode_single_record() {
    let records = vec![rec("test.txt", 1024, 1622547800)];

    let encoded = encode(&records).unwrap();
    let decoded = decode(&encoded).unwrap();

    assert_eq!(decoded, records);
}

#[test]
fn test_encode_decode_multiple_records() {
    let records = vec![
        rec("test1.txt", 1024, 1622547800),
        rec("src/lib.rs", 2048, 1622547900),
        rec("docs/README.md", 512, 1622548000),
    ];

    let encoded = encode(&records).unwrap();
    let decoded = decode(&encoded).unwrap();

    assert_eq!(decoded, records);
}

#[test]
fn test_unicode_paths() {
    let records = vec![
        rec("测试.txt", 100, 1622547800),
        rec("файл.rs", 200, 1622547900),
        rec("文档/自述文件.md", 300, 1622548000),
    ];

    let encoded = encode(&records).unwrap();
    let decoded = decode(&encoded).unwrap();

    assert_eq!(decoded, records);
}

#[test]
fn test_long_path() {
    let long_path = "a".repeat(1000);
    let records = vec![rec(&long_path, 1024, 1622547800)];

    let encoded = encode(&records).unwrap();
    let decoded = decode(&encoded).unwrap();

    assert_eq!(decoded[0].path, long_path);
}

#[test]
fn test_path_too_long() {
    let too_long_path = "a".repeat(70000); // > u16::MAX
    let records = vec![rec(&too_long_path, 1024, 1622547800)];

    let result = encode(&records);

    assert!(result.is_err());
    assert_eq!(
        result.unwrap_err().message(),
        "Path too long: 70000 bytes"
    );
}

#[test]
fn encode_fails_just_past_the_path_limit() {
    // 65535 bytes still encodes; 65536 does not.
    let at_limit = "b".repeat(65535);
    assert!(encode(&vec![rec(&at_limit, 1, 1)]).is_ok());

    let past_limit = "b".repeat(65536);
    let result = encode(&vec![rec(&past_limit, 1, 1)]);
    assert!(result.is_err());
    assert_eq!(
        result.unwrap_err().message(),
        "Path too long: 65536 bytes"
    );
}

#[test]
fn test_invalid_magic() {
    let mut bytes = vec![b'X', b'Y', b'Z', b'W']; // Wrong magic
    bytes.extend_from_slice(&1u32.to_be_bytes()); // version
    bytes.extend_from_slice(&0u32.to_be_bytes()); // num entries
    bytes.extend_from_slice(&0u64.to_be_bytes()); // checksum

    let result = decode(&bytes);

    assert!(result.is_err());
    assert_eq!(result.unwrap_err().message(), "Invalid magic signature");
}

#[test]
fn test_invalid_version() {
    let mut bytes = Vec::new();
    bytes.extend_from_slice(b"BTLX");
    bytes.extend_from_slice(&999u32.to_be_bytes()); // Wrong version
    bytes.extend_from_slice(&0u32.to_be_bytes()); // num entries
    bytes.extend_from_slice(&0u64.to_be_bytes()); // checksum

    let result = decode(&bytes);

    assert!(result.is_err());
    assert_eq!(result.unwrap_err().message(), "Unsupported version: 999");
}

#[test]
fn test_corrupted_checksum() {
    let records = vec![rec("test.txt", 1024, 1622547800)];
    let mut encoded = encode(&records).unwrap();

    // Corrupt the last byte (part of checksum)
    let last_idx = encoded.len() - 1;
    encoded[last_idx] = encoded[last_idx].wrapping_add(1);

    let result = decode(&encoded);

    assert!(result.is_err());
    assert_eq!(result.unwrap_err().message(), "Checksum mismatch");
}

#[test]
fn decode_rejects_short_input() {
    let result = decode(&[0x42, 0x54, 0x4c, 0x58]);
    assert!(result.is_err());
    assert_eq!(result.unwrap_err().message(), "Invalid file: too short");
}

#[test]
fn encoding_is_deterministic() {
    let records = vec![
        rec("src/main.rs", 10, 20),
        rec("src/lib.rs", 30, 40),
    ];
    let a = encode(&records).unwrap();
    let b = encode(&records).unwrap();
    assert_eq!(a, b);
}

#[test]
fn any_single_byte_flip_is_detected() {
    // Flipping any one byte of a valid blob yields an error; the decoded
    // list is never silently different.
    let records = vec![
        rec("src/main.rs", 11, 1622547800),
        rec("README.md", 22, 1622547900),
    ];
    let encoded = encode(&records).unwrap();
    for i in 0..encoded.len() {
        let mut corrupt = encoded.clone();
        corrupt[i] ^= 0x01;
        match decode(&corrupt) {
            Err(CodecError::BadMagic)
            | Err(CodecError::UnsupportedVersion(_))
            | Err(CodecError::Truncated)
            | Err(CodecError::InvalidUtf8)
            | Err(CodecError::ChecksumMismatch) => {}
            Err(e) => panic!("unexpected error kind at byte {}: {:?}", i, e),
            Ok(_) => panic!("flip at byte {} went undetected", i),
        }
    }
}

#[test]
fn truncated_entries_are_reported() {
    // A valid header and checksum around an entry region that is too short.
    let mut bytes = Vec::new();
    bytes.extend_from_slice(b"BTLX");
    bytes.extend_from_slice(&1u32.to_be_bytes());
    bytes.extend_from_slice(&1u32.to_be_bytes()); // one entry claimed
    bytes.extend_from_slice(&[0u8; 4]); // far too few bytes for an entry
    let crc = crc::Crc::<u64>::new(&crc::CRC_64_ECMA_182).checksum(&bytes);
    bytes.extend_from_slice(&crc.to_be_bytes());

    let result = decode(&bytes);
    assert!(result.is_err());
    assert_eq!(
        result.unwrap_err().message(),
        "Truncated file: insufficient data"
    );
}

#[test]
fn invalid_utf8_paths_are_reported() {
    // A structurally valid blob whose single entry holds path bytes that
    // are not UTF-8.
    let mut bytes = Vec::new();
    bytes.extend_from_slice(b"BTLX");
    bytes.extend_from_slice(&1u32.to_be_bytes());
    bytes.extend_from_slice(&1u32.to_be_bytes());
    bytes.extend_from_slice(&7u64.to_be_bytes()); // size
    bytes.extend_from_slice(&9u64.to_be_bytes()); // modified time
    bytes.extend_from_slice(&2u16.to_be_bytes()); // path length
    bytes.extend_from_slice(&[0xff, 0xfe]); // not UTF-8
    let crc = crc::Crc::<u64>::new(&crc::CRC_64_ECMA_182).checksum(&bytes);
    bytes.extend_from_slice(&crc.to_be_bytes());

    let result = decode(&bytes);
    assert!(result.is_err());
    assert_eq!(result.unwrap_err().message(), "Invalid UTF-8 in path");
}
