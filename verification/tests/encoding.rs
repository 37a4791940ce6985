use ddb::encoding::{encode_bytes, KVOperation};
use ddb::error::Error;

#[test]
fn test_encode_bytes() {
    let bytes: Vec<u8> = vec![0x00, 0x01, 0x02, 0x03];
    assert_eq!(encode_bytes(&bytes[..]), vec![0, 0, 0, 4, 0, 1, 2, 3]);
}

#[test]
fn test_encode_operation() {
    let get = KVOperation::get().encode();
    assert_eq!(get, vec![0]);
    let key = vec![0x01, 0x02];
    let delete = KVOperation::delete(&key).encode();
    assert_eq!(delete, vec![1, 0, 0, 0, 2, 1, 2]);
    let value = vec![0x03, 0x04, 0x05];
    let set = KVOperation::set(&key, &value).encode();
    assert_eq!(set, vec![2, 0, 0, 0, 2, 1, 2, 0, 0, 0, 3, 3, 4, 5]);
}

#[test]
fn test_decode_operation() {
    let get_decoded = KVOperation::decode(vec![0]).unwrap();
    assert_eq!(get_decoded, KVOperation::get());
    let key = vec![0x01, 0x02];
    let delete_decoded = KVOperation::decode(vec![1, 0, 0, 0, 2, 1, 2]).unwrap();
    assert_eq!(delete_decoded, KVOperation::delete(&key));
    let value = vec![0x03, 0x04, 0x05];
    let set_decoded = KVOperation::decode(vec![2, 0, 0, 0, 2, 1, 2, 0, 0, 0, 3, 3, 4, 5]).unwrap();
    assert_eq!(set_decoded, KVOperation::set(&key, &value));
}

#[test]
fn decode_empty_is_parse_error() {
    assert!(matches!(KVOperation::decode(vec![]), Err(Error::Parse(_))));
}

#[test]
fn decode_trailing_byte_after_get_is_parse_error() {
    assert!(matches!(KVOperation::decode(vec![0x00, 0x00]), Err(Error::Parse(_))));
}

#[test]
fn decode_missing_value_length_is_parse_error() {
    assert!(matches!(
        KVOperation::decode(vec![0x02, 0, 0, 0, 1, 0x6b]),
        Err(Error::Parse(_))
    ));
}

#[test]
fn decode_unknown_tag_is_parse_error() {
    assert!(matches!(KVOperation::decode(vec![0x07]), Err(Error::Parse(_))));
}

#[test]
fn decode_trailing_byte_after_delete_is_parse_error() {
    assert!(matches!(
        KVOperation::decode(vec![0x01, 0, 0, 0, 1, 0x61, 0xff]),
        Err(Error::Parse(_))
    ));
}

#[test]
fn decode_truncated_key_is_parse_error() {
    assert!(matches!(
        KVOperation::decode(vec![0x01, 0, 0, 0, 9, 0x61]),
        Err(Error::Parse(_))
    ));
}

#[test]
fn decode_inverts_encode() {
    let get = KVOperation::get().encode();
    assert_eq!(KVOperation::decode(get).unwrap(), KVOperation::get());
    let delete = KVOperation::delete(b"key").encode();
    assert_eq!(KVOperation::decode(delete).unwrap(), KVOperation::delete(b"key"));
    let set = KVOperation::set(b"key", b"value").encode();
    assert_eq!(
        KVOperation::decode(set).unwrap(),
        KVOperation::set(b"key", b"value")
    );
    let empty_fields = KVOperation::set(b"", b"").encode();
    assert_eq!(
        KVOperation::decode(empty_fields).unwrap(),
        KVOperation::set(b"", b"")
    );
}
