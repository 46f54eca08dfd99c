use gypaetus::schema::{Document, FieldID, FieldValue, Value};
use gypaetus::wal::{IOType, Wal, WalReader};
use gypaetus::GyError;

#[test]
fn test_copy() {
    // copy as much as fits, byte by byte, like the log's block buffer does
    let mut a = [0u8; 9];
    let b = [1u8, 2, 3, 4, 5];
    let n = a.len().min(b.len());
    a[..n].copy_from_slice(&b[..n]);
    let i = n;
    println!("{:?},{}", a, i);
    assert_eq!(i, 5);
    assert_eq!(a, [1, 2, 3, 4, 5, 0, 0, 0, 0]);
}

#[test]
fn test_wal() {
    let mut wal = Wal::new(1 * 1024 * 1024, IOType::MMAP).unwrap();
    let buf = "abcdeee";
    wal.write_bytes(buf.as_bytes()).unwrap();
    wal.flush().unwrap();
    assert_eq!(wal.offset(), 7);
    assert_eq!(&wal.flushed_slice()[..7], buf.as_bytes());
}

#[test]
fn wal_test_document() {
    let now_nanos: i64 = 1_700_000_000_123_456_789;
    let mut wal = Wal::new(1 * 1024 * 1024, IOType::MMAP).unwrap();
    let mk = |id: u32, v: Value| FieldValue::new(FieldID::from_field_id(id), v);
    let field_values = vec![
        mk(1, Value::String("aa".to_string())),
        mk(2, Value::I64(123)),
        mk(3, Value::U64(123456)),
        mk(4, Value::I32(963)),
        mk(5, Value::U32(123789)),
        mk(6, Value::F64(123.456f64.to_bits())),
        mk(7, Value::F32(963.852f32.to_bits())),
        mk(8, Value::Date(now_nanos)),
        mk(9, Value::Bytes(vec![0u8, 1, 2, 3, 4, 5, 6, 7, 8, 9])),
        mk(7, Value::F32(963.852f32.to_bits())),
    ];
    let offset = wal.offset();
    let doc1 = Document::from(field_values);
    let mut bytes: Vec<u8> = Vec::new();
    doc1.binary_serialize(&mut bytes).unwrap();
    wal.write_bytes(&bytes).unwrap();
    wal.flush().unwrap();

    let reader = WalReader::from(&wal, offset);
    let doc2 = reader.read_doc().unwrap();
    println!("doc2:{:?}", doc2);
    assert_eq!(doc1, doc2);
}

#[test]
fn test_wal_overflow_boundary() {
    // exactly fsize bytes fit; one more raises WalOverflow
    let mut wal = Wal::new(8, IOType::FILEIO).unwrap();
    wal.write_bytes(&[7u8; 8]).unwrap();
    let r = wal.write_bytes(&[1u8]);
    assert_eq!(r, Err(GyError::WalOverflow));
    wal.flush().unwrap();
    assert!(wal.check_rotate(1).is_err());
    assert!(wal.check_rotate(0).is_ok());
}
