use kvs::{Command, KvsError, decode_one, encode};

fn put(key: &[u8], value: &[u8]) -> Command {
    Command::set(key.to_vec(), value.to_vec())
}

#[test]
fn encode_put_exact_bytes() {
    let bytes = encode(&put(b"a", b"1"));
    let expected: Vec<u8> = vec![
        0, // tag: Put
        1, 0, 0, 0, 0, 0, 0, 0, // key length
        b'a', // key
        1, 0, 0, 0, 0, 0, 0, 0, // value length
        b'1', // value
    ];
    assert_eq!(bytes, expected);
}

#[test]
fn encode_remove_exact_bytes() {
    let bytes = encode(&Command::remove(b"ab".to_vec()));
    let expected: Vec<u8> = vec![
        1, // tag: Remove
        2, 0, 0, 0, 0, 0, 0, 0, // key length
        b'a', b'b', // key
    ];
    assert_eq!(bytes, expected);
}

#[test]
fn round_trip_put() {
    let bytes = encode(&put(b"key", b"value"));
    let (cmd, consumed) = decode_one(&bytes, 0).unwrap();
    assert_eq!(consumed, bytes.len());
    match cmd {
        Command::Put(sc) => {
            assert_eq!(sc.key, b"key".to_vec());
            assert_eq!(sc.value, b"value".to_vec());
        }
        Command::Remove { .. } => panic!("decoded wrong variant"),
    }
}

#[test]
fn round_trip_remove() {
    let bytes = encode(&Command::remove(b"gone".to_vec()));
    let (cmd, consumed) = decode_one(&bytes, 0).unwrap();
    assert_eq!(consumed, bytes.len());
    match cmd {
        Command::Remove { key } => assert_eq!(key, b"gone".to_vec()),
        Command::Put(_) => panic!("decoded wrong variant"),
    }
}

#[test]
fn round_trip_empty_key_and_value() {
    let bytes = encode(&put(b"", b""));
    let (cmd, consumed) = decode_one(&bytes, 0).unwrap();
    assert_eq!(consumed, bytes.len());
    assert_eq!(consumed, 17);
    match cmd {
        Command::Put(sc) => {
            assert!(sc.key.is_empty());
            assert!(sc.value.is_empty());
        }
        Command::Remove { .. } => panic!("decoded wrong variant"),
    }
}

#[test]
fn decode_at_offset() {
    let mut bytes = encode(&put(b"a", b"1"));
    let first_len = bytes.len();
    bytes.extend(encode(&Command::remove(b"a".to_vec())));
    let (cmd, consumed) = decode_one(&bytes, first_len).unwrap();
    assert_eq!(consumed, bytes.len() - first_len);
    assert!(matches!(cmd, Command::Remove { .. }));
}

#[test]
fn decode_garbage_is_corrupt() {
    let bytes: Vec<u8> = vec![9, 9, 9];
    assert_eq!(decode_one(&bytes, 0).unwrap_err(), KvsError::CorruptRecord);
}

#[test]
fn decode_unknown_tag_is_corrupt() {
    let mut bytes = encode(&put(b"a", b"1"));
    bytes[0] = 7;
    assert_eq!(decode_one(&bytes, 0).unwrap_err(), KvsError::CorruptRecord);
}

#[test]
fn decode_truncated_is_corrupt() {
    let mut bytes = encode(&put(b"key", b"value"));
    bytes.truncate(bytes.len() - 1);
    assert_eq!(decode_one(&bytes, 0).unwrap_err(), KvsError::CorruptRecord);
}
