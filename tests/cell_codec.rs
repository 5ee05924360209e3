use logkv::cell::{CellType, DecodeError};

#[test]
fn encode_decode_i64() {
    let cell = CellType::I64(-123456789);
    let mut buf = Vec::new();

    cell.encode(&mut buf);

    let (decoded, rest) = CellType::decode(&buf).unwrap();
    assert_eq!(decoded, cell);
    assert!(rest.is_empty());
}

#[test]
fn encode_decode_str() {
    let cell = CellType::Str(b"hello world".to_vec());
    let mut buf = Vec::new();

    cell.encode(&mut buf);

    let (decoded, rest) = CellType::decode(&buf).unwrap();
    assert_eq!(decoded, cell);
    assert!(rest.is_empty());
}

#[test]
fn encode_multiple_cells() {
    let cells = vec![
        CellType::I64(42),
        CellType::Str(b"abc".to_vec()),
        CellType::I64(-1),
    ];

    let mut buf = Vec::new();
    for c in &cells {
        c.encode(&mut buf);
    }

    let mut data = buf.as_slice();
    for expected in cells {
        let (cell, rest) = CellType::decode(data).unwrap();
        assert_eq!(cell, expected);
        data = rest;
    }

    assert!(data.is_empty());
}

#[test]
fn cell_wire_bytes() {
    let mut buf = Vec::new();
    CellType::I64(-2).encode(&mut buf);
    assert_eq!(buf, vec![1, 0xfe, 0xff, 0xff, 0xff, 0xff, 0xff, 0xff, 0xff]);
    let mut buf = Vec::new();
    CellType::Str(b"ab".to_vec()).encode(&mut buf);
    assert_eq!(buf, vec![2, 2, 0, 0, 0, 97, 98]);
    let mut buf = Vec::new();
    CellType::I64(0x0102030405060708).encode(&mut buf);
    assert_eq!(buf, vec![1, 8, 7, 6, 5, 4, 3, 2, 1]);
}

#[test]
fn decode_unknown_tag() {
    assert_eq!(CellType::decode(&[7, 0, 0]).err(), Some(DecodeError::UnknownType(7)));
    assert_eq!(CellType::decode(&[0]).err(), Some(DecodeError::UnknownType(0)));
}

#[test]
fn decode_truncated() {
    assert_eq!(CellType::decode(&[]).err(), Some(DecodeError::UnexpectedEOF));
    assert_eq!(CellType::decode(&[1, 0, 0, 0]).err(), Some(DecodeError::UnexpectedEOF));
    assert_eq!(CellType::decode(&[2, 5, 0]).err(), Some(DecodeError::UnexpectedEOF));
    assert_eq!(CellType::decode(&[2, 5, 0, 0, 0, 1, 2]).err(), Some(DecodeError::UnexpectedEOF));
}

#[test]
fn decode_leaves_remainder() {
    let (c, rest) = CellType::decode(&[2, 1, 0, 0, 0, 9, 4, 5]).unwrap();
    assert_eq!(c, CellType::Str(vec![9]));
    assert_eq!(rest, &[4, 5]);
    let (c, rest) = CellType::decode(&[1, 255, 255, 255, 255, 255, 255, 255, 127]).unwrap();
    assert_eq!(c, CellType::I64(i64::MAX));
    assert!(rest.is_empty());
}

#[test]
fn same_type_ignores_payload() {
    assert!(CellType::I64(1).same_type(&CellType::I64(2)));
    assert!(CellType::Str(vec![1]).same_type(&CellType::Str(vec![])));
    assert!(!CellType::I64(1).same_type(&CellType::Str(vec![])));
    assert!(!CellType::Str(vec![]).same_type(&CellType::I64(0)));
}
