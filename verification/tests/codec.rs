use kvs::codec::{decode_command, encode_command};
use kvs::KvCommand;

fn put(k: &str, v: &str) -> KvCommand {
    KvCommand::Put { key: k.to_string(), value: v.to_string() }
}

#[test]
fn put_record_bytes() {
    assert_eq!(encode_command(&put("a", "b")), vec![0u8, 1, 97, 1, 98]);
}

#[test]
fn get_and_rm_record_bytes() {
    assert_eq!(encode_command(&KvCommand::Get { key: "k".to_string() }), vec![1u8, 1, 107]);
    assert_eq!(encode_command(&KvCommand::Rm { key: "k".to_string() }), vec![2u8, 1, 107]);
}

#[test]
fn long_string_uses_two_byte_length() {
    let value = "x".repeat(300);
    let bytes = encode_command(&put("", &value));
    assert_eq!(&bytes[..5], &[0u8, 0, 251, 44, 1]);
    assert_eq!(bytes.len(), 5 + 300);
}

#[test]
fn utf8_strings_are_encoded_by_their_bytes() {
    let bytes = encode_command(&put("é", ""));
    assert_eq!(bytes, vec![0u8, 2, 0xc3, 0xa9, 0]);
}

#[test]
fn decode_reads_back_with_trailing_bytes() {
    let cmd = put("key1", "value1");
    let mut bytes = encode_command(&cmd);
    let n = bytes.len();
    bytes.extend_from_slice(&[7, 7, 7]);
    assert_eq!(decode_command(&bytes), Some((cmd, n)));
}

#[test]
fn decode_rejects_unknown_variant() {
    assert_eq!(decode_command(&[3u8, 1, 97]), None);
}

#[test]
fn decode_rejects_truncated_record() {
    assert_eq!(decode_command(&[0u8, 1, 97, 5, 98]), None);
    assert_eq!(decode_command(&[]), None);
}

#[test]
fn decode_rejects_huge_announced_length() {
    // A length prefix of 2^40 bytes is refused rather than allocated.
    let bytes = [2u8, 253, 0, 0, 0, 0, 0, 1, 0, 0];
    assert_eq!(decode_command(&bytes), None);
}

#[test]
fn decode_rejects_invalid_utf8() {
    assert_eq!(decode_command(&[1u8, 1, 0xff]), None);
}
