use chii::co::{Block, CompressedObject, Length, Marker};
use chii::glob::Glob;
use chii::validator::{ValidationError, ValidationErrorKind};

#[test]
fn valid_linear_record() {
    let mut co = CompressedObject::new_record();
    co.push_data(Marker::Field(4), Glob::new(16, vec![1, 2])).unwrap();
    co.push_data(Marker::Field(5), Glob::new(21, vec![3, 4, 5])).unwrap();
    assert!(co.validate().is_ok());
}

#[test]
fn valid_linear_list() {
    let mut co = CompressedObject::new_list();
    co.push_data(Marker::Element, Glob::new(16, vec![1, 2])).unwrap();
    co.push_data(Marker::Element, Glob::new(21, vec![3, 4, 5])).unwrap();
    assert!(co.validate().is_ok());
}

#[test]
fn invalid_linear_record_element_marker_for_field_name() {
    let mut co = CompressedObject::new_record();
    co.push_data(Marker::Element, Glob::new(16, vec![1, 2])).unwrap();
    assert!(co.validate().is_err());
}

#[test]
fn invalid_linear_list_field_marker_for_element() {
    let mut co = CompressedObject::new_list();
    co.push_data(Marker::Field(5), Glob::new(8, vec![1])).unwrap();
    assert!(co.validate().is_err());
}

#[test]
fn invalid_linear_record_unexpected_terminator() {
    let mut co = CompressedObject::new_record();
    co.push(Block::Terminator);
    assert!(co.validate().is_err());
}

#[test]
fn invalid_linear_list_unexpected_terminator() {
    let mut co = CompressedObject::new_list();
    co.push(Block::Terminator);
    assert!(co.validate().is_err());
}

#[test]
fn valid_nested_object() {
    let mut co = CompressedObject::new_record();
    co.begin_nested_record(Marker::Field(4)).unwrap();
    co.push_data(Marker::Field(6), Glob::new(8, vec![1])).unwrap();
    co.push_data(Marker::Field(7), Glob::new(8, vec![2])).unwrap();

    co.begin_nested_record(Marker::Field(4)).unwrap();
    co.push_data(Marker::Field(6), Glob::new(8, vec![1])).unwrap();
    co.push_data(Marker::Field(7), Glob::new(8, vec![2])).unwrap();
    co.end_nested_object();

    co.end_nested_object();

    co.begin_nested_list(Marker::Field(5)).unwrap();
    co.push_data(Marker::Element, Glob::new(8, vec![3])).unwrap();
    co.end_nested_object();

    co.push_data(Marker::Field(8), Glob::new(8, vec![4])).unwrap();

    assert!(co.validate().is_ok());
}

#[test]
fn simple_record_into_bytes() {
    let mut co = CompressedObject::new_record();
    co.push_data(Marker::Field(4), Glob::new(16, vec![0xff, 0xff])).unwrap();
    co.push_data(Marker::Field(5), Glob::new(7, vec![0x71])).unwrap();
    assert!(co.validate().is_ok());
    assert_eq!(
        co.into_bytes(3),
        vec![0x01, 0x21, 0xfe, 0xff, 0x7b, 0x10, 0x07]
    );
}

#[test]
fn empty_object_is_valid_and_has_no_bytes() {
    let co = CompressedObject::new();
    assert_eq!(co.validate(), Ok(()));
    assert_eq!(co.into_bytes(3), Vec::<u8>::new());
}

#[test]
fn element_in_record_is_wrong_marker_type_at_its_index() {
    let mut co = CompressedObject::new_record();
    co.push_data(Marker::Field(4), Glob::new(8, vec![1])).unwrap();
    co.push_data(Marker::Element, Glob::new(8, vec![2])).unwrap();
    assert_eq!(
        co.validate(),
        Err(ValidationError { kind: ValidationErrorKind::WrongMarkerType, index: 2 })
    );
}

#[test]
fn root_terminator_is_unexpected_at_its_index() {
    let mut co = CompressedObject::new_record();
    co.push(Block::Terminator);
    assert_eq!(
        co.validate(),
        Err(ValidationError { kind: ValidationErrorKind::UnexpectedTerminator, index: 1 })
    );
}

#[test]
fn perturbed_length_is_a_mismatch() {
    let mut co = CompressedObject::new_list();
    co.push(Block::Data(Marker::Element, Length::new(9), Glob::new(8, vec![1])));
    assert_eq!(
        co.validate(),
        Err(ValidationError { kind: ValidationErrorKind::LengthMismatch, index: 1 })
    );
}

#[test]
fn data_before_header_is_unexpected_block() {
    let mut co = CompressedObject::new();
    co.push(Block::Data(Marker::Element, Length::new(8), Glob::new(8, vec![1])));
    assert_eq!(
        co.validate(),
        Err(ValidationError { kind: ValidationErrorKind::UnexpectedBlock, index: 0 })
    );
}

#[test]
fn root_header_with_field_is_malformed() {
    let mut co = CompressedObject::new();
    co.push(Block::Header(Marker::Record, Marker::Field(4)));
    assert_eq!(
        co.validate(),
        Err(ValidationError { kind: ValidationErrorKind::MalformedHeader, index: 0 })
    );
    let mut co = CompressedObject::new();
    co.push(Block::Header(Marker::Element, Marker::Null));
    assert_eq!(
        co.validate(),
        Err(ValidationError { kind: ValidationErrorKind::MalformedHeader, index: 0 })
    );
}

#[test]
fn reserved_field_marker_is_misused() {
    let mut co = CompressedObject::new_record();
    assert!(co.push_data(Marker::Field(2), Glob::new(8, vec![1])).is_err());
    assert!(co.push_data(Marker::Null, Glob::new(8, vec![1])).is_err());
    assert!(co.begin_nested_record(Marker::Record).is_err());
    assert!(co.begin_nested_list(Marker::List).is_err());
    assert_eq!(co.blocks().len(), 1);
}

#[test]
fn reserved_field_value_in_record_is_wrong_marker_type() {
    let mut co = CompressedObject::new_record();
    co.push(Block::Data(Marker::Field(3), Length::new(8), Glob::new(8, vec![1])));
    assert_eq!(
        co.validate(),
        Err(ValidationError { kind: ValidationErrorKind::WrongMarkerType, index: 1 })
    );
}

#[test]
fn unterminated_nested_scope_is_accepted() {
    let mut co = CompressedObject::new_record();
    co.begin_nested_list(Marker::Field(4)).unwrap();
    co.push_data(Marker::Element, Glob::new(3, vec![5])).unwrap();
    assert_eq!(co.validate(), Ok(()));
}

#[test]
fn marker_truncated_to_width() {
    assert_eq!(Marker::Field(13).into_glob(3), Glob::new(3, vec![5]));
    assert_eq!(Marker::Element.into_glob(2), Glob::new(2, vec![3]));
    assert_eq!(Marker::Null.into_glob(5).data, vec![0]);
    assert_eq!(Marker::Field(0x1ff).into_glob(12).data, vec![0xff, 0x01]);
    assert_eq!(Marker::Field(7).value(), 7);
    assert!(Marker::Field(7).is_field());
    assert!(!Marker::Element.is_field());
    assert!(Marker::Null.is_null() && Marker::Record.is_record() && Marker::List.is_list());
    assert!(Marker::Element.is_element());
}

#[test]
fn header_and_terminator_globs() {
    let g = Block::Header(Marker::List, Marker::Field(5)).into_glob(3);
    assert_eq!(g, Glob::new(6, vec![0b101_010]));
    let t = Block::Terminator.into_glob(4);
    assert_eq!(t, Glob::new(4, vec![0]));
}

#[test]
fn length_glob_holds_code_point_bytes() {
    let g = Length::new(131).into_glob();
    assert_eq!(g, Glob::new(16, vec![0x83, 0x01]));
    assert_eq!(Length::new(131).decode(), Some(131));
}

#[test]
fn serialized_width_counts_every_block() {
    let mut co = CompressedObject::default();
    assert_eq!(co.serialized_width(3), Some(0));
    co.push(Block::Header(Marker::Record, Marker::Null));
    co.push_data(Marker::Field(4), Glob::new(16, vec![0xff, 0xff])).unwrap();
    co.push(Block::Terminator);
    // header, then marker, one length byte and payload, then terminator
    assert_eq!(co.serialized_width(3), Some(6 + 3 + 8 + 16 + 3));
}

#[test]
fn nested_record_in_list_serializes() {
    let mut co = CompressedObject::new_list();
    co.begin_nested_record(Marker::Element).unwrap();
    co.push_data(Marker::Field(4), Glob::new(1, vec![1])).unwrap();
    co.end_nested_object();
    assert_eq!(co.validate(), Ok(()));
    // bits, lowest first: 010 000 | 100 110 | 001 10000000 1 | 000
    assert_eq!(co.serialized_width(3), Some(6 + 6 + 3 + 8 + 1 + 3));
    assert_eq!(co.into_bytes(3), vec![0x42, 0xc6, 0x80, 0x00]);
}

#[test]
fn nested_header_with_element_in_record_is_wrong_marker_type() {
    let mut co = CompressedObject::new_record();
    co.begin_nested_list(Marker::Element).unwrap();
    co.end_nested_object();
    assert_eq!(
        co.validate(),
        Err(ValidationError { kind: ValidationErrorKind::WrongMarkerType, index: 1 })
    );
    let mut co = CompressedObject::new_list();
    co.push(Block::Header(Marker::Element, Marker::Element));
    assert_eq!(
        co.validate(),
        Err(ValidationError { kind: ValidationErrorKind::MalformedHeader, index: 1 })
    );
}
