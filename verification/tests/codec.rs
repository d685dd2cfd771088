use kvs::KvError;
use kvs::Record;
use kvs::codec::decode;
use kvs::codec::encode;

fn put(key: &[u8], value: &[u8]) -> Record {
    Record::Put { key: key.to_vec(), value: value.to_vec() }
}

fn rm(key: &[u8]) -> Record {
    Record::Remove { key: key.to_vec() }
}

#[test]
fn encode_put_is_canonical_json() {
    let out = encode(&put(b"a", b"1"));
    assert_eq!(out, b"{\"Set\":{\"key\":\"a\",\"value\":\"1\"}}".to_vec());
}

#[test]
fn encode_remove_is_canonical_json() {
    let out = encode(&rm(b"a"));
    assert_eq!(out, b"{\"Remove\":{\"key\":\"a\"}}".to_vec());
}

#[test]
fn encode_escapes_quote_backslash_and_controls() {
    let out = encode(&put(b"\"\\\n", b"x"));
    assert_eq!(
        out,
        b"{\"Set\":{\"key\":\"\\\"\\\\\\u000a\",\"value\":\"x\"}}".to_vec()
    );
}

#[test]
fn decode_inverts_encode() {
    let written = put(b"hello", b"world \"quoted\" \\ \x01\x1f");
    let bytes = encode(&written);
    let (rec, end) = decode(&bytes, 0).unwrap();
    assert_eq!(end, bytes.len());
    match rec {
        Record::Put { key, value } => {
            assert_eq!(key, b"hello".to_vec());
            assert_eq!(value, b"world \"quoted\" \\ \x01\x1f".to_vec());
        }
        Record::Remove { .. } => panic!("wrong variant"),
    }
}

#[test]
fn decode_is_self_delimiting() {
    let mut bytes = encode(&rm(b"gone"));
    let n = bytes.len();
    bytes.extend(b"trailing bytes of the next record".to_vec());
    let (rec, end) = decode(&bytes, 0).unwrap();
    assert_eq!(end, n);
    match rec {
        Record::Remove { key } => assert_eq!(key, b"gone".to_vec()),
        Record::Put { .. } => panic!("wrong variant"),
    }
}

#[test]
fn decode_reports_truncated_records() {
    let bytes = encode(&put(b"k", b"v"));
    let cut = bytes[..bytes.len() - 1].to_vec();
    assert!(matches!(decode(&cut, 0), Err(KvError::TruncatedRecord)));
    let empty: Vec<u8> = Vec::new();
    assert!(matches!(decode(&empty, 0), Err(KvError::TruncatedRecord)));
}

#[test]
fn decode_reports_corrupt_records() {
    assert!(matches!(
        decode(&b"xyzzy".to_vec(), 0),
        Err(KvError::CorruptRecord)
    ));
    // an escape the encoder never produces is not accepted
    let noncanonical = b"{\"Set\":{\"key\":\"\\u0041\",\"value\":\"\"}}".to_vec();
    assert!(matches!(decode(&noncanonical, 0), Err(KvError::CorruptRecord)));
    // a raw control byte inside a string is not accepted
    let raw_control = b"{\"Set\":{\"key\":\"a\x07b\",\"value\":\"\"}}".to_vec();
    assert!(matches!(decode(&raw_control, 0), Err(KvError::CorruptRecord)));
}
