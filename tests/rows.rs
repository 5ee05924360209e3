use logkv::cell::{CellType, DecodeError};
use logkv::row::Row;
use logkv::schema::{Column, Schema};

fn schema() -> Schema {
    Schema {
        table: "link".into(),
        cols: vec![
            Column { name: "time".into(), data_types: CellType::I64(0) },
            Column { name: "src".into(), data_types: CellType::Str(vec![]) },
            Column { name: "dst".into(), data_types: CellType::Str(vec![]) },
        ],
        pkey: vec![1, 2],
    }
}

#[test]
fn encode_decode_row() {
    let schema = schema();

    let row = Row {
        cells: vec![
            CellType::I64(123),
            CellType::Str(b"a".to_vec()),
            CellType::Str(b"b".to_vec()),
        ],
    };

    let key = row.encode_key(&schema);
    let val = row.encode_val(&schema);

    let mut decoded = schema.new_row();
    decoded.decode_key(&schema, &key).unwrap();
    decoded.decode_val(&schema, &val).unwrap();

    assert_eq!(row, decoded);
}

#[test]
fn key_and_value_bytes() {
    let schema = schema();
    let row = Row {
        cells: vec![
            CellType::I64(5),
            CellType::Str(b"a".to_vec()),
            CellType::Str(b"bc".to_vec()),
        ],
    };
    assert_eq!(
        row.encode_key(&schema),
        vec![b'l', b'i', b'n', b'k', 0, 2, 1, 0, 0, 0, b'a', 2, 2, 0, 0, 0, b'b', b'c']
    );
    assert_eq!(row.encode_val(&schema), vec![1, 5, 0, 0, 0, 0, 0, 0, 0]);
}

#[test]
fn key_follows_pkey_order() {
    let mut schema = schema();
    schema.pkey = vec![2, 0];
    let row = Row {
        cells: vec![
            CellType::I64(1),
            CellType::Str(b"x".to_vec()),
            CellType::Str(b"y".to_vec()),
        ],
    };
    let key = row.encode_key(&schema);
    assert_eq!(
        key,
        vec![b'l', b'i', b'n', b'k', 0, 2, 1, 0, 0, 0, b'y', 1, 1, 0, 0, 0, 0, 0, 0, 0]
    );
    let val = row.encode_val(&schema);
    assert_eq!(val, vec![2, 1, 0, 0, 0, b'x']);
    let mut decoded = schema.new_row();
    decoded.decode_key(&schema, &key).unwrap();
    decoded.decode_val(&schema, &val).unwrap();
    assert_eq!(decoded, row);
}

#[test]
fn empty_pkey_puts_all_in_value() {
    let mut schema = schema();
    schema.pkey = vec![];
    let row = Row {
        cells: vec![
            CellType::I64(-7),
            CellType::Str(b"".to_vec()),
            CellType::Str(b"z".to_vec()),
        ],
    };
    assert_eq!(row.encode_key(&schema), b"link\0".to_vec());
    let mut decoded = schema.new_row();
    decoded.decode_key(&schema, &row.encode_key(&schema)).unwrap();
    decoded.decode_val(&schema, &row.encode_val(&schema)).unwrap();
    assert_eq!(decoded, row);
}

#[test]
fn new_row_defaults() {
    let row = schema().new_row();
    assert_eq!(
        row.cells,
        vec![CellType::I64(0), CellType::Str(vec![]), CellType::Str(vec![])]
    );
}

#[test]
fn decode_key_errors() {
    let schema = schema();
    let mut row = schema.new_row();
    assert_eq!(
        row.decode_key(&schema, b"link\0"),
        Err(DecodeError::UnexpectedEOF)
    );
    let mut row = schema.new_row();
    assert_eq!(
        row.decode_key(&schema, &[b'l', b'i', b'n', b'k', 0, 9]),
        Err(DecodeError::UnknownType(9))
    );
    let mut row = schema.new_row();
    assert_eq!(row.decode_val(&schema, &[]), Err(DecodeError::UnexpectedEOF));
}
