use gypaetus::schema::{Document, FieldEntry, FieldID, FieldValue, Schema, Value};
use varintrs::{Binary, WriteBytesVarExt};

fn roundtrip_values(values: Vec<Value>) -> Vec<Value> {
    let mut bytes: Vec<u8> = Vec::with_capacity(1024);
    for v in &values {
        v.binary_serialize(&mut bytes).unwrap();
    }
    let mut out = Vec::new();
    let mut pos = 0usize;
    for _ in 0..values.len() {
        let (v, end) = Value::binary_deserialize(&bytes, pos).unwrap();
        out.push(v);
        pos = end;
    }
    out
}

#[test]
fn test_value() {
    let now_nanos: i64 = 1_700_000_000_123_456_789;
    let value_1 = Value::String("aa".to_string());
    let value_2 = Value::I64(123);
    let value_3 = Value::U64(123456);
    let value_4 = Value::I32(963);
    let value_5 = Value::U32(123789);
    let value_6 = Value::F64(123.456f64.to_bits());
    let value_7 = Value::F32(963.852f32.to_bits());
    let value_8 = Value::Date(now_nanos);
    let value_9 = Value::Bytes(vec![0u8, 1, 2, 3, 4, 5, 6, 7, 8, 9]);

    let input = vec![
        value_1, value_2, value_3, value_4, value_5, value_6, value_7, value_8, value_9,
    ];
    let expect = vec![
        Value::String("aa".to_string()),
        Value::I64(123),
        Value::U64(123456),
        Value::I32(963),
        Value::U32(123789),
        Value::F64(123.456f64.to_bits()),
        Value::F32(963.852f32.to_bits()),
        Value::Date(now_nanos),
        Value::Bytes(vec![0u8, 1, 2, 3, 4, 5, 6, 7, 8, 9]),
    ];
    let got = roundtrip_values(input);
    assert_eq!(got.len(), 9);
    for (g, e) in got.iter().zip(expect.iter()) {
        assert_eq!(g, e);
    }
}

#[test]
fn test_field() {
    let now_nanos: i64 = 1_700_000_000_123_456_789;
    let mk = |id: u32, v: Value| FieldValue::new(FieldID::from_field_id(id), v);
    let fields = vec![
        mk(1, Value::String("aa".to_string())),
        mk(2, Value::I64(123)),
        mk(3, Value::U64(123456)),
        mk(4, Value::I32(963)),
        mk(5, Value::U32(123789)),
        mk(6, Value::F64(123.456f64.to_bits())),
        mk(7, Value::F32(963.852f32.to_bits())),
        mk(8, Value::Date(now_nanos)),
        mk(9, Value::Bytes(vec![0u8, 1, 2, 3, 4, 5, 6, 7, 8, 9])),
    ];
    let mut bytes: Vec<u8> = Vec::with_capacity(1024);
    for f in &fields {
        f.binary_serialize(&mut bytes).unwrap();
    }
    let mut pos = 0usize;
    for f in &fields {
        let (g, end) = FieldValue::binary_deserialize(&bytes, pos).unwrap();
        assert_eq!(&g, f);
        pos = end;
    }
}

#[test]
fn schema_test_document() {
    let now_nanos: i64 = 1_700_000_000_123_456_789;
    let mk = |id: u32, v: Value| FieldValue::new(FieldID::from_field_id(id), v);
    let field_values = vec![
        mk(1, Value::String("aa".to_string())),
        mk(2, Value::I64(123)),
        mk(3, Value::U64(123456)),
        mk(4, Value::I32(963)),
        mk(5, Value::U32(123789)),
        mk(6, Value::F64(123.456f64.to_bits())),
        mk(7, Value::F32(963.852f32.to_bits())),
        mk(8, Value::Date(now_nanos)),
        mk(9, Value::Bytes(vec![0u8, 1, 2, 3, 4, 5, 6, 7, 8, 9])),
        mk(7, Value::F32(963.852f32.to_bits())),
    ];
    let doc1 = Document::from(field_values);
    let mut bytes: Vec<u8> = Vec::with_capacity(1024);
    doc1.binary_serialize(&mut bytes).unwrap();
    println!("pos:{}", bytes.len());
    let (d_doc1, _) = Document::binary_deserialize(&bytes, 0).unwrap();
    assert_eq!(doc1, d_doc1);
    println!("doc size:{}", doc1.size().unwrap());
    assert_eq!(doc1.size().unwrap(), bytes.len());
}

#[test]
fn test_meta() {
    let mut schema = Schema::new();
    schema.add_field(FieldEntry::str("body"));
    schema.add_field(FieldEntry::i32("title"));
    let body = schema.get_field("body").unwrap();
    let title = schema.get_field("title").unwrap();
    println!("{:?}", schema);
    assert_eq!(body.0, 0);
    assert_eq!(title.0, 1);
    assert!(schema.get_field("missing").is_none());
}

#[test]
fn test_varint_round_trip() {
    // encode then decode is the identity on these boundary values
    let cases: [u64; 8] = [0, 1, 127, 128, 16383, 16384, (1 << 32) - 1, (1 << 63) - 1];
    for c in cases {
        let mut buf: Vec<u8> = Vec::new();
        gypaetus::varint::write_vu64(&mut buf, c);
        let (v, end) = gypaetus::varint::read_vu64(&buf, 0).unwrap();
        assert_eq!(v, c);
        assert_eq!(end, buf.len());
    }
}

#[test]
fn test_varint_matches_reference() {
    let cases: [u64; 8] = [0, 1, 127, 128, 16383, 16384, (1 << 32) - 1, (1 << 63) - 1];
    for c in cases {
        let mut mine: Vec<u8> = Vec::new();
        gypaetus::varint::write_vu64(&mut mine, c);
        let mut theirs: Vec<u8> = Vec::new();
        theirs.write_vu64::<Binary>(c).unwrap();
        assert_eq!(mine, theirs);
    }
}

#[test]
fn test_vint_round_trip() {
    for c in [0i64, 1, -1, 63, -64, 123456789, -987654321, i64::MAX, i64::MIN] {
        let mut buf: Vec<u8> = Vec::new();
        gypaetus::schema::VInt(c).binary_serialize(&mut buf).unwrap();
        let (v, _) = gypaetus::schema::VInt::binary_deserialize(&buf, 0).unwrap();
        assert_eq!(v.val(), c);
    }
}

#[test]
fn test_document_size_matches_wire_form() {
    // the size a document reports is exactly the length of its wire form
    let mut d = Document::new();
    d.add_i32(FieldID(0), 7);
    d.add_text(FieldID(1), "hello");
    let mut buf: Vec<u8> = Vec::new();
    d.binary_serialize(&mut buf).unwrap();
    assert_eq!(d.size().unwrap(), buf.len());
}

#[test]
fn test_sort_fieldvalues() {
    // sorting orders the values by field id and keeps them all
    let mut d = Document::new();
    d.add_i32(FieldID(2), 7);
    d.add_text(FieldID(0), "a");
    d.add_i32(FieldID(1), 5);
    d.sort_fieldvalues();
    let ids: Vec<u32> = d.field_values.iter().map(|f| f.field_id.0).collect();
    assert_eq!(ids, vec![0, 1, 2]);
    assert_eq!(d.field_values.len(), 3);
}
