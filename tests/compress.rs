use chii::comp::{builtin, BooleanCompressor, Compressor, EncodedWidth, IdentityCompressor, Value};
use chii::compress::{
    BoolCompressor, CompressError, EnumCompressor, IntegerCompressor, PassThroughCompressor,
    UuidCompressor,
};
use chii::glob::Glob;

#[test]
fn ternary_enum_compress() {
    let variants = vec!["Foo", "Bar", "Hello World"];
    let compressor = EnumCompressor::from_string_variants(&variants);

    let glob = compressor.compress(b"Foo").unwrap();
    assert_eq!(Glob::new(2, vec![0b00]), glob);

    let glob = compressor.compress(b"Bar").unwrap();
    assert_eq!(Glob::new(2, vec![0b01]), glob);

    let glob = compressor.compress(b"Hello World").unwrap();
    assert_eq!(Glob::new(2, vec![0b10]), glob);
}

#[test]
fn ternary_enum_decompress() {
    let variants = vec!["Foo", "Bar", "Hello World"];
    let compressor = EnumCompressor::from_string_variants(&variants);

    let glob = Glob::new(2, vec![0b00]);
    assert_eq!(b"Foo".to_vec(), compressor.decompress(glob).unwrap());

    let glob = Glob::new(2, vec![0b01]);
    assert_eq!(b"Bar".to_vec(), compressor.decompress(glob).unwrap());

    let glob = Glob::new(2, vec![0b10]);
    assert_eq!(b"Hello World".to_vec(), compressor.decompress(glob).unwrap());
}

#[test]
fn enum_unknown_variant_and_bad_glob() {
    let variants = vec!["Foo", "Bar", "Hello World"];
    let compressor = EnumCompressor::from_string_variants(&variants);
    assert_eq!(compressor.result_width(), 2);
    assert_eq!(compressor.compress(b"Baz"), Err(CompressError::UnknownVariant));
    assert_eq!(
        compressor.decompress(Glob::new(3, vec![0])),
        Err(CompressError::WrongGlobWidth(3))
    );
    assert_eq!(
        compressor.decompress(Glob::new(2, vec![0b11])),
        Err(CompressError::NoVariantWithIndex(3))
    );
    let single = EnumCompressor::from_variants(vec![b"only".to_vec()]);
    assert_eq!(single.compress(b"only"), Err(CompressError::BadInput));
}

#[test]
fn compress_and_decompress_uuid() {
    let uuid_str = "0a53309c-98d7-43cb-98e8-89562adf0f0c";
    let result = UuidCompressor.compress(uuid_str.as_bytes());
    assert!(result.is_ok());

    let glob = result.unwrap();
    let result = UuidCompressor.decompress(glob);
    assert!(result.is_ok());

    let bytes = result.unwrap();
    let decompressed_str = String::from_utf8_lossy(&bytes);
    assert_eq!(uuid_str, decompressed_str);
}

#[test]
fn uuid_bytes_and_bad_text() {
    let glob = UuidCompressor
        .compress(b"0a53309c-98d7-43cb-98e8-89562adf0f0c")
        .unwrap();
    assert_eq!(glob.width, 128);
    assert_eq!(glob.data[0], 0x0a);
    assert_eq!(glob.data[15], 0x0c);
    assert_eq!(UuidCompressor.compress(b"not a uuid"), Err(CompressError::BadInput));
    assert_eq!(
        UuidCompressor.decompress(Glob::new(8, vec![1])),
        Err(CompressError::WrongGlobWidth(8))
    );
}

#[test]
fn pass_through_round_trip() {
    let glob = PassThroughCompressor.compress(b"hi").unwrap();
    assert_eq!(glob, Glob::new(16, vec![b'h', b'i']));
    assert_eq!(PassThroughCompressor.decompress(glob).unwrap(), b"hi".to_vec());
    assert_eq!(PassThroughCompressor.compress(b""), Err(CompressError::BadInput));
    assert_eq!(
        PassThroughCompressor.decompress(Glob::new(3, vec![1])),
        Err(CompressError::WrongGlobWidth(3))
    );
}

#[test]
fn bool_compressor_bytes() {
    assert_eq!(BoolCompressor.compress(&[1]).unwrap(), Glob::new(1, vec![1]));
    assert_eq!(BoolCompressor.compress(&[0]).unwrap(), Glob::new(1, vec![0]));
    assert_eq!(BoolCompressor.compress(&[2]), Err(CompressError::BadInput));
    assert_eq!(BoolCompressor.compress(&[]), Err(CompressError::BadInput));
    assert_eq!(BoolCompressor.decompress(Glob::new(1, vec![1])).unwrap(), vec![1]);
}

#[test]
fn integer_compressor_truncates_and_pads() {
    let c = IntegerCompressor::new(12);
    assert_eq!(c.compress(&[0xff, 0xff, 0xff]).unwrap(), Glob::new(12, vec![0xff, 0x0f]));
    assert_eq!(c.compress(&[0x05]).unwrap(), Glob::new(12, vec![0x05, 0x00]));
    assert_eq!(IntegerCompressor::new(0).compress(&[1]), Err(CompressError::BadInput));
    assert_eq!(
        c.decompress(Glob::new(12, vec![0x05, 0x0f])).unwrap(),
        vec![0x05, 0x0f, 0, 0, 0, 0, 0, 0]
    );
}

#[test]
fn boolean_value_is_one_bit() {
    let c = Compressor::Boolean(BooleanCompressor);
    assert_eq!(c.compress(&Value::Bool(true)).unwrap(), Glob::new(1, vec![1]));
    assert_eq!(c.compress(&Value::Bool(false)).unwrap(), Glob::new(1, vec![0]));
    assert_eq!(c.compress(&Value::UInt(1)), Err(CompressError::UnexpectedType));
    assert_eq!(c.encoded_width(), EncodedWidth::Fixed(1));
}

#[test]
fn identity_value_keeps_utf8_bytes() {
    let c = Compressor::Identity(IdentityCompressor);
    let g = c.compress(&Value::Str("ab".to_string())).unwrap();
    assert_eq!(g, Glob::new(16, vec![b'a', b'b']));
    assert_eq!(c.compress(&Value::Bool(true)), Err(CompressError::UnexpectedType));
    assert_eq!(c.encoded_width(), EncodedWidth::Variable);
}

#[test]
fn enum_value_ordinals() {
    let c = Compressor::Enum(EnumCompressor::from_string_variants(&["Bar", "Foo", "Hello World"]));
    assert_eq!(c.compress(&Value::Str("Bar".to_string())).unwrap(), Glob::new(2, vec![0]));
    assert_eq!(
        c.compress(&Value::Str("Hello World".to_string())).unwrap(),
        Glob::new(2, vec![2])
    );
    assert_eq!(
        c.compress(&Value::Str("Nope".to_string())),
        Err(CompressError::UnknownVariant)
    );
    assert_eq!(c.encoded_width(), EncodedWidth::Fixed(2));
}

#[test]
fn integer_value_low_bits() {
    let c = Compressor::Integer(IntegerCompressor::new(5));
    assert_eq!(c.compress(&Value::UInt(0x3f)).unwrap(), Glob::new(5, vec![0x1f]));
    assert_eq!(c.compress(&Value::Int(3)), Err(CompressError::UnexpectedType));
    assert_eq!(c.encoded_width(), EncodedWidth::Fixed(5));
}

#[test]
fn builtin_names() {
    assert!(matches!(builtin("bool"), Some(Compressor::Boolean(_))));
    assert!(matches!(builtin("uuid"), Some(Compressor::Uuid(_))));
    match builtin("u12") {
        Some(Compressor::Integer(c)) => assert_eq!(c.width(), 12),
        _ => panic!("u12 is an integer compressor"),
    }
    assert!(builtin("u").is_none());
    assert!(builtin("u1x").is_none());
    assert!(builtin("ascii").is_none());
    assert!(builtin("u99999999999999999999999").is_none());
    assert_eq!(
        builtin("uuid").unwrap().encoded_width(),
        EncodedWidth::Fixed(128)
    );
}

#[test]
fn boolean_round_trip() {
    let c = Compressor::Boolean(BooleanCompressor);
    let g = c.compress(&Value::Bool(true)).unwrap();
    assert_eq!(c.decompress(&g), Ok(Value::Bool(true)));
    let g = c.compress(&Value::Bool(false)).unwrap();
    assert_eq!(c.decompress(&g), Ok(Value::Bool(false)));
    assert_eq!(
        c.decompress(&Glob::new(2, vec![1])),
        Err(CompressError::WrongGlobWidth(2))
    );
}

#[test]
fn value_round_trips() {
    let id = Compressor::Identity(IdentityCompressor);
    let g = id.compress(&Value::Str("héllo".to_string())).unwrap();
    assert_eq!(g.width, 48);
    assert_eq!(id.decompress(&g), Ok(Value::Str("héllo".to_string())));
    assert_eq!(
        id.decompress(&Glob::new(8, vec![0xff])),
        Err(CompressError::BadInput)
    );

    let e = Compressor::Enum(EnumCompressor::from_string_variants(&["A", "B", "C"]));
    let g = e.compress(&Value::Str("C".to_string())).unwrap();
    assert_eq!(e.decompress(&g), Ok(Value::Str("C".to_string())));

    let n = Compressor::Integer(IntegerCompressor::new(20));
    let g = n.compress(&Value::UInt(0xabcde)).unwrap();
    assert_eq!(n.decompress(&g), Ok(Value::UInt(0xabcde)));

    let u = builtin("uuid").unwrap();
    let text = "0a53309c-98d7-43cb-98e8-89562adf0f0c".to_string();
    let g = u.compress(&Value::Str(text.clone())).unwrap();
    assert_eq!(u.decompress(&g), Ok(Value::Str(text)));
}

#[test]
fn uuid_text_forms() {
    let hyphenated = UuidCompressor
        .compress(b"0a53309c-98d7-43cb-98e8-89562adf0f0c")
        .unwrap();
    let plain = UuidCompressor.compress(b"0A53309C98D743CB98E889562ADF0F0C").unwrap();
    let urn = UuidCompressor
        .compress(b"urn:uuid:0a53309c-98d7-43cb-98e8-89562adf0f0c")
        .unwrap();
    assert_eq!(hyphenated, plain);
    assert_eq!(hyphenated, urn);
    assert_eq!(
        UuidCompressor.compress(b"0a53309c98d7-43cb-98e8-89562adf0f0c-"),
        Err(CompressError::BadInput)
    );
    assert_eq!(
        UuidCompressor.decompress(plain).unwrap(),
        b"0a53309c-98d7-43cb-98e8-89562adf0f0c".to_vec()
    );
}
