use logkv::entry::{Entry, EntryError};

#[test]
fn can_encode() {
    let ent = Entry {
        key: b"a".to_vec(),
        val: b"bb".to_vec(),
        deleted: false,
    };

    let encoded = ent.encode();

    assert_eq!(encoded, vec![59, 37, 55, 31, 1, 0, 0, 0, 2, 0, 0, 0, 0, 97, 98, 98]);
}

#[test]
fn encode_then_decode() {
    let entry = Entry {
        key: b"barbambia".to_vec(),
        val: b"kergudu".to_vec(),
        deleted: false,
    };

    let data = entry.encode();

    let (decoded, used) = Entry::decode(&data).unwrap();

    assert_eq!(decoded.key, b"barbambia");
    assert_eq!(decoded.val, b"kergudu");
    assert!(!decoded.deleted);
    assert_eq!(used, data.len());
}

#[test]
fn encode_into_then_decode() {
    let entry = Entry {
        key: b"barbambia".to_vec(),
        val: b"kergudu".to_vec(),
        deleted: false,
    };

    let mut buf = Vec::new();
    entry.encode_into(&mut buf);

    let (decoded, _) = Entry::decode(&buf).unwrap();

    assert_eq!(decoded.key, b"barbambia");
    assert_eq!(decoded.val, b"kergudu");
    assert!(!decoded.deleted);
}

#[test]
fn encode_then_decode_delete() {
    let entry = Entry {
        key: b"to-delete".to_vec(),
        val: Vec::new(),
        deleted: true,
    };

    let data = entry.encode();
    let (decoded, _) = Entry::decode(&data).unwrap();

    assert_eq!(decoded.key, b"to-delete");
    assert!(decoded.val.is_empty());
    assert!(decoded.deleted);
}

#[test]
fn log_write_then_read() {
    let mut log = Vec::new();
    Entry::new(b"a".to_vec(), b"1".to_vec()).encode_into(&mut log);
    Entry::new(b"b".to_vec(), b"2".to_vec()).encode_into(&mut log);

    let (r1, n1) = Entry::decode(&log).unwrap();
    let (r2, n2) = Entry::decode(&log[n1..]).unwrap();
    let r3 = Entry::decode(&log[n1 + n2..]);

    assert_eq!(r1.key(), b"a");
    assert_eq!(r2.key(), b"b");
    assert_eq!(r3.err(), Some(EntryError::UnexpectedEof));
}

#[test]
fn accessors_and_tombstone() {
    let e = Entry::new(b"k".to_vec(), b"v".to_vec());
    assert_eq!(e.key(), b"k");
    assert_eq!(e.value(), b"v");
    assert!(!e.is_deleted());
    let t = Entry::tombstone(b"k".to_vec());
    assert_eq!(t.key(), b"k");
    assert!(t.value().is_empty());
    assert!(t.is_deleted());
}

#[test]
fn checksum_covers_payload() {
    // The checksum of "a" -> "bb" differs from that of "a" -> "bc".
    let a = Entry::new(b"a".to_vec(), b"bb".to_vec()).encode();
    let b = Entry::new(b"a".to_vec(), b"bc".to_vec()).encode();
    assert_ne!(a[0..4], b[0..4]);
    assert_eq!(a[4..15], b[4..15]);
}

#[test]
fn single_bit_flips_are_detected() {
    let data = Entry::new(b"key".to_vec(), b"value".to_vec()).encode();
    for i in 0..data.len() {
        for bit in 0..8 {
            let mut bad = data.clone();
            bad[i] ^= 1 << bit;
            let r = Entry::decode(&bad);
            assert!(r.is_err(), "flip of bit {} in byte {} went unnoticed", bit, i);
        }
    }
    let mut bad = data.clone();
    bad[14] ^= 0x01;
    assert_eq!(Entry::decode(&bad).err(), Some(EntryError::BadChecksum));
}

#[test]
fn truncated_record_is_unexpected_eof() {
    let data = Entry::new(b"key".to_vec(), b"value".to_vec()).encode();
    for cut in 0..data.len() {
        assert_eq!(Entry::decode(&data[..cut]).err(), Some(EntryError::UnexpectedEof));
    }
}

#[test]
fn decode_takes_only_one_record() {
    let mut data = Entry::new(b"x".to_vec(), b"".to_vec()).encode();
    let first = data.len();
    data.extend_from_slice(&[1, 2, 3]);
    let (e, n) = Entry::decode(&data).unwrap();
    assert_eq!(n, first);
    assert_eq!(n, 14);
    assert_eq!(e.key, b"x");
    assert!(e.val.is_empty());
}
