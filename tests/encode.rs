use chii::co::Marker;
use chii::encode::{encode, Document, EncodeError};
use chii::schema::{CompositeType, List, Record, Schema, Type};

fn record(fields: Vec<(&str, Type)>) -> Record {
    Record(fields.into_iter().map(|(k, t)| (k.to_string(), t)).collect())
}

fn object(fields: Vec<(&str, Document)>) -> Document {
    Document::Object(fields.into_iter().map(|(k, v)| (k.to_string(), v)).collect())
}

#[test]
fn sanity_test_json_bool() {
    let schema = Schema::new(CompositeType::Record(record(vec![
        ("a", Type::Name("bool".to_string())),
        ("b", Type::Name("bool".to_string())),
    ])));
    let json = object(vec![("a", Document::Bool(true)), ("b", Document::Bool(false))]);
    encode(&schema, &json).expect("failed to convert to CO");
}

#[test]
fn boolean_record_encodes_one_bit() {
    let schema = Schema::new(CompositeType::Record(record(vec![(
        "b",
        Type::Name("bool".to_string()),
    )])));
    let co = encode(&schema, &object(vec![("b", Document::Bool(true))])).unwrap();
    assert!(co.validate().is_ok());
    assert_eq!(schema.marker_width(), 3);
    let blocks = co.blocks();
    assert_eq!(blocks.len(), 2);
    match &blocks[1] {
        chii::co::Block::Data(m, l, g) => {
            assert_eq!(*m, Marker::Field(4));
            assert_eq!(l.decode(), Some(1));
            assert_eq!(g.width, 1);
            assert_eq!(g.data, vec![1]);
        }
        _ => panic!("expected a data block"),
    }
    // header 001 000, field 100, length 00000001, payload 1, least
    // significant bit first
    assert_eq!(co.into_bytes(3), vec![0x01, 0x03, 0x02]);
}

#[test]
fn nested_record_and_list_validate() {
    let inner = record(vec![
        ("x", Type::Name("u4".to_string())),
        ("y", Type::PassThrough),
    ]);
    let schema = Schema::new(CompositeType::Record(record(vec![
        ("p", Type::Nested(CompositeType::Record(inner))),
        (
            "q",
            Type::Nested(CompositeType::List(List(Box::new(Type::Enum {
                variants: vec!["A".to_string(), "B".to_string(), "C".to_string()],
            })))),
        ),
    ])));
    let doc = object(vec![
        (
            "p",
            object(vec![("x", Document::UInt(9)), ("y", Document::Str("hi".to_string()))]),
        ),
        (
            "q",
            Document::Array(vec![
                Document::Str("C".to_string()),
                Document::Str("A".to_string()),
            ]),
        ),
    ]);
    let co = encode(&schema, &doc).unwrap();
    assert_eq!(co.validate(), Ok(()));
    assert_eq!(co.blocks().len(), 9);
}

#[test]
fn list_of_records_validate() {
    let item = record(vec![("n", Type::Name("u8".to_string()))]);
    let schema = Schema::new(CompositeType::List(List(Box::new(Type::Nested(
        CompositeType::Record(item),
    )))));
    let doc = Document::Array(vec![
        object(vec![("n", Document::UInt(1))]),
        object(vec![("n", Document::UInt(2))]),
    ]);
    let co = encode(&schema, &doc).unwrap();
    assert_eq!(co.validate(), Ok(()));
    assert_eq!(co.blocks().len(), 7);
}

#[test]
fn encoder_errors() {
    let schema = Schema::new(CompositeType::Record(record(vec![
        ("a", Type::Name("bool".to_string())),
        ("e", Type::Enum { variants: vec!["x".to_string(), "y".to_string()] }),
        ("w", Type::Name("weird".to_string())),
    ])));
    assert_eq!(
        encode(&schema, &object(vec![("z", Document::Bool(true))])).err(),
        Some(EncodeError::UnexpectedField("z".to_string()))
    );
    assert_eq!(
        encode(&schema, &Document::Array(vec![])).err(),
        Some(EncodeError::WrongValueType)
    );
    assert_eq!(
        encode(&schema, &object(vec![("a", Document::Null)])).err(),
        Some(EncodeError::WrongValueType)
    );
    assert_eq!(
        encode(&schema, &object(vec![("w", Document::Bool(true))])).err(),
        Some(EncodeError::UnknownCompressor("weird".to_string()))
    );
    assert_eq!(
        encode(&schema, &object(vec![("e", Document::Str("q".to_string()))])).err(),
        Some(EncodeError::CompressionFailure(
            chii::compress::CompressError::UnknownVariant
        ))
    );
}

#[test]
fn field_ids_and_marker_width() {
    let r = record(vec![
        ("a", Type::PassThrough),
        ("b", Type::PassThrough),
        ("c", Type::PassThrough),
        ("d", Type::PassThrough),
        ("e", Type::PassThrough),
    ]);
    assert_eq!(r.field_width(), 4);
    let map = r.field_map();
    assert_eq!(map[0].0, "a");
    assert_eq!(map[0].1 .0, 4);
    assert_eq!(map[4].1 .0, 8);
    let inv = r.inverse_field_map();
    assert_eq!(inv[2].1, "c");
    assert_eq!(r.field_id(&"d".to_string()).unwrap().0, 7);
    let schema = Schema::new(CompositeType::List(List(Box::new(Type::Nested(
        CompositeType::Record(r),
    )))));
    assert_eq!(schema.marker_width(), 4);
    let flat = Schema::new(CompositeType::List(List(Box::new(Type::PassThrough))));
    assert_eq!(flat.marker_width(), 2);
}

#[test]
fn field_ids_follow_name_order() {
    let r = record(vec![
        ("beta", Type::Name("bool".to_string())),
        ("alpha", Type::Name("bool".to_string())),
        ("al", Type::Name("bool".to_string())),
    ]);
    let map = r.field_map();
    assert_eq!(map[0].1 .0, 6);
    assert_eq!(map[1].1 .0, 5);
    assert_eq!(map[2].1 .0, 4);
    assert_eq!(r.field_id(&"gamma".to_string()), None);
    let schema = Schema::new(CompositeType::Record(r));
    let co = encode(&schema, &object(vec![("beta", Document::Bool(true))])).unwrap();
    match &co.blocks()[1] {
        chii::co::Block::Data(m, _, _) => assert_eq!(*m, Marker::Field(6)),
        _ => panic!("expected a data block"),
    }
}

#[test]
fn schema_well_formedness() {
    let ok = Schema::new(CompositeType::Record(record(vec![
        ("b", Type::Enum { variants: vec!["A".to_string(), "B".to_string()] }),
        ("a", Type::PassThrough),
    ])));
    assert!(ok.is_well_formed());
    let unsorted = Schema::new(CompositeType::Record(record(vec![(
        "e",
        Type::Enum { variants: vec!["B".to_string(), "A".to_string()] },
    )])));
    assert!(!unsorted.is_well_formed());
    let repeated = Schema::new(CompositeType::Record(record(vec![
        ("a", Type::PassThrough),
        ("a", Type::PassThrough),
    ])));
    assert!(!repeated.is_well_formed());
    let nested = Schema::new(CompositeType::List(List(Box::new(Type::Nested(
        CompositeType::Record(record(vec![(
            "e",
            Type::Enum { variants: vec!["x".to_string(), "x".to_string()] },
        )])),
    )))));
    assert!(!nested.is_well_formed());
}

#[test]
fn first_fault_is_reported() {
    let schema = Schema::new(CompositeType::Record(record(vec![
        ("a", Type::Name("bool".to_string())),
        ("w", Type::Name("weird".to_string())),
    ])));
    // the unknown compressor comes first, before the unexpected field
    let doc = object(vec![("w", Document::Bool(true)), ("z", Document::Bool(true))]);
    assert_eq!(
        encode(&schema, &doc).err(),
        Some(EncodeError::UnknownCompressor("weird".to_string()))
    );
    let doc = object(vec![("a", Document::UInt(1))]);
    assert_eq!(
        encode(&schema, &doc).err(),
        Some(EncodeError::CompressionFailure(
            chii::compress::CompressError::UnexpectedType
        ))
    );
}
