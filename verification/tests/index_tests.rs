use gypaetus::cache::ByteBlockPool;
use gypaetus::disk::{flush_index, DiskStoreReader};
use gypaetus::index::{
    FieldCache, FieldReader, Index, IndexConfigBuilder, Term,
};
use gypaetus::schema::{Document, FieldEntry, Schema, Value};
use gypaetus::GyError;

fn collect(pr: &gypaetus::index::PostingReader) -> Vec<(u64, u32)> {
    let mut it = pr.iter();
    let mut out = Vec::new();
    while let Some(df) = it.next() {
        out.push((df.doc_id(), df.freq()));
    }
    out
}

#[test]
fn test_add_doc() {
    let mut schema = Schema::new();
    schema.add_field(FieldEntry::str("body"));
    schema.add_field(FieldEntry::i32("title"));
    let field_id_title = schema.get_field("title").unwrap();
    let config = IndexConfigBuilder::default().build();
    let mut index = Index::new(schema, config).unwrap();
    {
        let mut writer1 = index.writer().unwrap();

        let mut d = Document::new();
        d.add_text(field_id_title.clone(), "bb");
        writer1.add(&d).unwrap();

        let mut d1 = Document::new();
        d1.add_text(field_id_title.clone(), "aa");
        writer1.add(&d1).unwrap();
    }
    let reader = index.reader().unwrap();
    let p = reader
        .search(&Term::from_field_text(field_id_title, "aa"))
        .unwrap();
    let got = collect(&p);
    for (docid, _freq) in &got {
        let doc = reader.doc(*docid).unwrap();
        println!("docid:{},doc{:?}", docid, doc);
    }
    assert_eq!(got, vec![(1, 1)]);
    let bytes = flush_index(&reader).unwrap();
    assert!(bytes.len() >= 48);
}

#[test]
fn mod_test_iter() {
    let mut schema = Schema::new();
    schema.add_field(FieldEntry::str("body"));
    schema.add_field(FieldEntry::i32("title"));
    let field_id_title = schema.get_field("title").unwrap();
    let config = IndexConfigBuilder::default().build();
    let mut index = Index::new(schema, config).unwrap();
    {
        let mut writer1 = index.writer().unwrap();
        let mut d = Document::new();
        d.add_text(field_id_title.clone(), "bb");
        writer1.add(&d).unwrap();
        let mut d1 = Document::new();
        d1.add_text(field_id_title.clone(), "aa");
        writer1.add(&d1).unwrap();
    }
    let reader = index.reader().unwrap();
    let p = reader
        .search(&Term::from_field_text(field_id_title, "aa"))
        .unwrap();
    for (docid, _f) in collect(&p) {
        let doc = reader.doc(docid).unwrap();
        println!("docid:{},doc{:?}", docid, doc);
    }
}

#[test]
fn test_fieldcache1() {
    // repeated document ids only raise the pending count; a commit then
    // makes the grouped records readable
    let mut pool = ByteBlockPool::new();
    let mut field = FieldCache::new();
    let valuea = Value::Str("aa");

    field.add(&mut pool, 2, &valuea).unwrap();
    field.add(&mut pool, 4, &valuea).unwrap();
    field.add(&mut pool, 4, &valuea).unwrap();
    field.add(&mut pool, 5, &valuea).unwrap();
    field.add(&mut pool, 5, &valuea).unwrap();
    field.add(&mut pool, 5, &valuea).unwrap();
    field.add(&mut pool, 8, &valuea).unwrap();
    field.commit(&mut pool).unwrap();

    let field_reader = FieldReader::new(&field, &pool);
    println!("search aa");
    let p = field_reader.get("aa".as_bytes()).unwrap();
    let got = collect(&p);
    println!("{:?}", got);
    assert_eq!(got, vec![(2, 1), (4, 2), (5, 3), (8, 1)]);
}

#[test]
fn test_fieldcache2() {
    let mut pool = ByteBlockPool::new();
    let mut field = FieldCache::new();
    let valuea = Value::Str("aa");
    let valueb = Value::Str("bb");
    let valuec = Value::Str("cc");
    let valued = Value::Str("dd");
    let value1 = Value::I32(1);
    let value2 = Value::I32(2);

    field.add(&mut pool, 0, &valueb).unwrap();
    field.add(&mut pool, 0, &value1).unwrap();

    field.add(&mut pool, 1, &valuea).unwrap();
    field.add(&mut pool, 1, &valuec).unwrap();

    field.add(&mut pool, 2, &valuea).unwrap();
    field.add(&mut pool, 2, &valueb).unwrap();
    field.add(&mut pool, 2, &valuec).unwrap();
    field.add(&mut pool, 2, &valued).unwrap();
    field.add(&mut pool, 2, &value1).unwrap();
    field.add(&mut pool, 2, &value2).unwrap();

    field.add(&mut pool, 3, &valuea).unwrap();
    field.add(&mut pool, 3, &valuec).unwrap();
    field.add(&mut pool, 3, &valued).unwrap();

    field.add(&mut pool, 4, &valuea).unwrap();
    field.add(&mut pool, 4, &valued).unwrap();
    field.add(&mut pool, 4, &value1).unwrap();
    field.add(&mut pool, 4, &value2).unwrap();

    field.add(&mut pool, 5, &valuec).unwrap();
    field.add(&mut pool, 5, &valued).unwrap();
    field.commit(&mut pool).unwrap();

    let field_reader = FieldReader::new(&field, &pool);

    println!("search aa");
    let got = collect(&field_reader.get("aa".as_bytes()).unwrap());
    println!("{:?}", got);
    assert_eq!(got, vec![(1, 1), (2, 1), (3, 1), (4, 1)]);

    println!("search bb");
    let got = collect(&field_reader.get("bb".as_bytes()).unwrap());
    println!("{:?}", got);
    assert_eq!(got, vec![(0, 1), (2, 1)]);

    println!("search cc");
    let got = collect(&field_reader.get("cc".as_bytes()).unwrap());
    println!("{:?}", got);
    assert_eq!(got, vec![(1, 1), (2, 1), (3, 1), (5, 1)]);

    println!("search dd");
    let got = collect(&field_reader.get("dd".as_bytes()).unwrap());
    println!("{:?}", got);
    assert_eq!(got, vec![(2, 1), (3, 1), (4, 1), (5, 1)]);

    let v = Value::I32(1).to_vec().unwrap();
    println!("search 1");
    let got = collect(&field_reader.get(&v).unwrap());
    println!("{:?}", got);
    assert_eq!(got, vec![(0, 1), (2, 1), (4, 1)]);
}

#[test]
fn test_search_title_eq_2() {
    // two documents with title 2: the posting lists both, once each
    let mut schema = Schema::new();
    schema.add_field(FieldEntry::str("body"));
    schema.add_field(FieldEntry::i32("title"));
    let title = schema.get_field("title").unwrap();
    let config = IndexConfigBuilder::default().build();
    let mut index = Index::new(schema, config).unwrap();
    {
        let mut w = index.writer().unwrap();
        let mut d = Document::new();
        d.add_i32(title.clone(), 2);
        w.add(&d).unwrap();
        let mut d2 = Document::new();
        d2.add_i32(title.clone(), 2);
        w.add(&d2).unwrap();
    }
    let reader = index.reader().unwrap();
    let p = reader
        .reader
        .search(&Term::from_field_i32(title, 2))
        .unwrap();
    assert_eq!(collect(&p), vec![(0, 1), (1, 1)]);
}

#[test]
fn test_doc_not_found() {
    let mut schema = Schema::new();
    schema.add_field(FieldEntry::i32("title"));
    let title = schema.get_field("title").unwrap();
    let config = IndexConfigBuilder::default().build();
    let mut index = Index::new(schema, config).unwrap();
    {
        let mut w = index.writer().unwrap();
        let mut d = Document::new();
        d.add_i32(title.clone(), 2);
        w.add(&d).unwrap();
    }
    let reader = index.reader().unwrap();
    assert!(reader.doc(0).is_ok());
    assert_eq!(reader.doc(1), Err(GyError::DocumentNotFound));
}

#[test]
fn test_segment_round_trip() {
    // flush, reopen, and the segment answers like the live index
    let mut schema = Schema::new();
    schema.add_field(FieldEntry::str("body"));
    schema.add_field(FieldEntry::i32("title"));
    let title = schema.get_field("title").unwrap();
    let config = IndexConfigBuilder::default().build();
    let mut index = Index::new(schema, config).unwrap();
    let mut original = Document::new();
    original.add_i32(title.clone(), 2);
    {
        let mut w = index.writer().unwrap();
        w.add(&original).unwrap();
        let mut d2 = Document::new();
        d2.add_i32(title.clone(), 2);
        w.add(&d2).unwrap();
    }
    let reader = index.reader().unwrap();
    let live = collect(&reader.reader.search(&Term::from_field_i32(title, 2)).unwrap());
    let bytes = flush_index(&reader).unwrap();
    let disk = DiskStoreReader::open(bytes).unwrap();
    let mut p = disk.search(&Term::from_field_i32(title, 2)).unwrap();
    let mut got = Vec::new();
    while let Some(df) = p.next() {
        got.push((df.doc_id(), df.freq()));
    }
    assert_eq!(got, live);
    assert_eq!(got, vec![(0, 1), (1, 1)]);
    let d0 = disk.doc(0).unwrap();
    assert_eq!(d0, original);
    assert_eq!(disk.doc(2), Err(GyError::DocumentNotFound));
}

#[test]
fn test_bad_magic() {
    // a magic byte off by one refuses the segment
    let mut schema = Schema::new();
    schema.add_field(FieldEntry::i32("title"));
    let title = schema.get_field("title").unwrap();
    let config = IndexConfigBuilder::default().build();
    let mut index = Index::new(schema, config).unwrap();
    {
        let mut w = index.writer().unwrap();
        let mut d = Document::new();
        d.add_i32(title.clone(), 2);
        w.add(&d).unwrap();
    }
    let reader = index.reader().unwrap();
    let mut bytes = flush_index(&reader).unwrap();
    let n = bytes.len();
    bytes[n - 1] = bytes[n - 1].wrapping_add(1);
    assert_eq!(
        DiskStoreReader::open(bytes).map(|_| ()),
        Err(GyError::BadMagicNumber)
    );
}

#[test]
fn test_fst_round_trip_terms() {
    // four terms written, four found with their offsets, a missing term
    // answers nothing
    let mut schema = Schema::new();
    schema.add_field(FieldEntry::str("body"));
    let body = schema.get_field("body").unwrap();
    let config = IndexConfigBuilder::default().build();
    let mut index = Index::new(schema, config).unwrap();
    {
        let mut w = index.writer().unwrap();
        for t in ["aa", "bb", "cc", "dd"] {
            let mut d = Document::new();
            d.add_text(body.clone(), t);
            w.add(&d).unwrap();
        }
    }
    let reader = index.reader().unwrap();
    let bytes = flush_index(&reader).unwrap();
    let disk = DiskStoreReader::open(bytes).unwrap();
    for (i, t) in ["aa", "bb", "cc", "dd"].iter().enumerate() {
        let mut p = disk.search(&Term::from_field_text(body.clone(), t)).unwrap();
        let df = p.next().unwrap();
        assert_eq!(df.doc_id(), i as u64);
        assert_eq!(df.freq(), 1);
        assert!(p.next().is_none());
    }
    assert_eq!(
        disk.search(&Term::from_field_text(body, "ab")).map(|_| ()),
        Err(GyError::TermNotFound)
    );
}

#[test]
fn test_fst() {
    let mut fst = gypaetus::fst::FstBuilder::new();
    fst.add(b"aa", 1).unwrap();
    fst.add(b"bb", 2).unwrap();
    fst.finish().unwrap();
    println!("{:?}", fst.get_ref());
    let fst_r = gypaetus::fst::FstReader::load(fst.get_ref());
    let u = fst_r.get(b"aa").unwrap();
    println!("u:{}", u);
    assert_eq!(u, 1);
    assert_eq!(fst_r.get(b"bb").unwrap(), 2);
    assert!(fst_r.get(b"cc").is_err());
}


#[test]
fn test_schema_duplicate_name_latest_wins() {
    // a field added again under an old name shadows the earlier entry
    let mut schema = Schema::new();
    schema.add_field(FieldEntry::str("title"));
    schema.add_field(FieldEntry::i32("title"));
    let id = schema.get_field("title").unwrap();
    assert_eq!(id.0, 1);
}

#[test]
fn test_fst_escaped_terms() {
    // the library's dictionaries always see escaped keys: three symbols
    // per term byte, each in 1..=8
    let k1 = gypaetus::disk::escape_term(b"aa");
    let k2 = gypaetus::disk::escape_term(b"bb");
    let k3 = gypaetus::disk::escape_term(b"cc");
    let mut b = gypaetus::fst::FstBuilder::new();
    b.add(k1.as_slice(), 7).unwrap();
    b.add(k2.as_slice(), 9).unwrap();
    b.finish().unwrap();
    let r = gypaetus::fst::FstReader::load(b.get_ref());
    assert_eq!(r.get(k1.as_slice()).unwrap(), 7);
    assert_eq!(r.get(k2.as_slice()).unwrap(), 9);
    assert!(r.get(k3.as_slice()).is_err());
}

#[test]
fn test_search_unpopulated_field() {
    // a field that saw no term flushes an empty dictionary; looking a
    // term up there answers TermNotFound
    let mut schema = Schema::new();
    schema.add_field(FieldEntry::str("body"));
    schema.add_field(FieldEntry::i32("title"));
    let body = schema.get_field("body").unwrap();
    let title = schema.get_field("title").unwrap();
    let config = IndexConfigBuilder::default().build();
    let mut index = Index::new(schema, config).unwrap();
    {
        let mut w = index.writer().unwrap();
        let mut d = Document::new();
        d.add_i32(title.clone(), 2);
        w.add(&d).unwrap();
    }
    let reader = index.reader().unwrap();
    let bytes = flush_index(&reader).unwrap();
    let disk = DiskStoreReader::open(bytes).unwrap();
    assert_eq!(
        disk.search(&Term::from_field_text(body, "anything")).map(|_| ()),
        Err(GyError::TermNotFound)
    );
    assert_eq!(
        disk.search(&Term::from_field_i32(title, 2)).map(|_| ()).is_ok(),
        true
    );
}

#[test]
fn test_search_absent_term_below_minimum() {
    // many distinct leading bytes, then a lookup below the smallest key;
    // the narrow escaped alphabet keeps the dictionary walkable and the
    // answer is TermNotFound
    let mut schema = Schema::new();
    schema.add_field(FieldEntry::str("body"));
    let body = schema.get_field("body").unwrap();
    let config = IndexConfigBuilder::default().build();
    let mut index = Index::new(schema, config).unwrap();
    {
        let mut w = index.writer().unwrap();
        for i in 0..20u8 {
            let mut d = Document::new();
            let name = format!("{}term", (b'B' + 2 * i) as char);
            d.add_text(body.clone(), &name);
            w.add(&d).unwrap();
        }
    }
    let reader = index.reader().unwrap();
    let bytes = flush_index(&reader).unwrap();
    let disk = DiskStoreReader::open(bytes).unwrap();
    assert_eq!(
        disk.search(&Term::from_field_text(body.clone(), "A")).map(|_| ()),
        Err(GyError::TermNotFound)
    );
    let mut p = disk.search(&Term::from_field_text(body, "Bterm")).unwrap();
    let mut got = Vec::new();
    while let Some(df) = p.next() {
        got.push((df.doc_id(), df.freq()));
    }
    assert_eq!(got, vec![(0, 1)]);
}

#[test]
fn test_add_with_raw_round_trip() {
    // a document handed over in wire form lands like one added directly
    let mut schema = Schema::new();
    schema.add_field(FieldEntry::i32("title"));
    let title = schema.get_field("title").unwrap();
    let config = IndexConfigBuilder::default().build();
    let mut index = Index::new(schema, config).unwrap();
    let mut d = Document::new();
    d.add_i32(title.clone(), 5);
    let mut buf: Vec<u8> = Vec::new();
    d.binary_serialize(&mut buf).unwrap();
    {
        let mut w = index.writer().unwrap();
        w.writer.add_with_raw(buf.as_slice()).unwrap();
    }
    assert!(!index.broken());
    let reader = index.reader().unwrap();
    let got = collect(&reader.search(&Term::from_field_i32(title, 5)).unwrap());
    assert_eq!(got, vec![(0, 1)]);
    assert_eq!(reader.doc(0).unwrap(), d);
}

#[test]
fn test_reader_iter_fields() {
    // the field iterator hands out one reader per schema field, in order
    let mut schema = Schema::new();
    schema.add_field(FieldEntry::str("body"));
    schema.add_field(FieldEntry::i32("title"));
    let config = IndexConfigBuilder::default().build();
    let index = Index::new(schema, config).unwrap();
    let reader = index.reader().unwrap();
    let mut it = reader.iter();
    let mut n = 0;
    while let Some(_fr) = it.next() {
        n += 1;
    }
    assert_eq!(n, 2);
}

#[test]
fn test_search_absent_continuation_term() {
    // terms whose keys end where another's continues: an absent term whose
    // lookup walks through several entry ends must still answer nothing
    let mut schema = Schema::new();
    schema.add_field(FieldEntry::str("body"));
    let body = schema.get_field("body").unwrap();
    let config = IndexConfigBuilder::default().build();
    let mut index = Index::new(schema, config).unwrap();
    {
        let mut w = index.writer().unwrap();
        for text in ["\x00", "\x01\x00", "\x01\x01\x00", "\x01\x01\x01A"] {
            let mut d = Document::new();
            d.add_text(body.clone(), text);
            w.add(&d).unwrap();
        }
    }
    let reader = index.reader().unwrap();
    let bytes = flush_index(&reader).unwrap();
    let disk = DiskStoreReader::open(bytes).unwrap();
    assert_eq!(
        disk.search(&Term::from_field_text(body.clone(), "\x00\x40\x08\x01A")).map(|_| ()),
        Err(GyError::TermNotFound)
    );
    let mut p = disk.search(&Term::from_field_text(body, "\x01\x01\x01A")).unwrap();
    let mut got = Vec::new();
    while let Some(df) = p.next() {
        got.push((df.doc_id(), df.freq()));
    }
    assert_eq!(got, vec![(3, 1)]);
}
