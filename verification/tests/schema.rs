use tlv::{
    check_distinct_tags, field_schema, kind_of_type, tag_of_attribute, ty_is_option,
    ty_is_vec_u8, AttributeShape, FieldKind, FieldSchema, SchemaError, TypeShape,
};

fn shape(is_path: bool, vec: bool, u8_argument: bool, option: bool) -> TypeShape {
    TypeShape {
        is_path,
        first_is_vec: vec,
        first_argument_is_u8: u8_argument,
        last_is_option: option,
    }
}

#[test]
fn vec_of_bytes_is_a_byte_buffer() {
    assert!(ty_is_vec_u8(&shape(true, true, true, false)));
    assert!(!ty_is_vec_u8(&shape(true, true, false, false)));
    assert!(!ty_is_vec_u8(&shape(true, false, true, false)));
    assert!(!ty_is_vec_u8(&shape(false, true, true, false)));
}

#[test]
fn option_is_optional() {
    assert!(ty_is_option(&shape(true, false, false, true)));
    assert!(!ty_is_option(&shape(true, false, false, false)));
    assert!(!ty_is_option(&shape(false, false, false, true)));
}

#[test]
fn kind_of_each_type() {
    assert_eq!(kind_of_type(&shape(true, true, true, false)), FieldKind::RawBytes);
    assert_eq!(kind_of_type(&shape(true, false, true, true)), FieldKind::Optional);
    assert_eq!(kind_of_type(&shape(true, true, false, false)), FieldKind::Regular);
    assert_eq!(kind_of_type(&shape(false, true, true, true)), FieldKind::Regular);
}

#[test]
fn tag_comes_from_the_annotation() {
    let good = AttributeShape::NameValue { key_is_tag: true, value: 7 };
    assert_eq!(tag_of_attribute(&good), Ok(7));
    let edge = AttributeShape::NameValue { key_is_tag: true, value: 255 };
    assert_eq!(tag_of_attribute(&edge), Ok(255));
    let wide = AttributeShape::NameValue { key_is_tag: true, value: 256 };
    assert_eq!(tag_of_attribute(&wide), Err(SchemaError::TagOutOfRange));
    let other = AttributeShape::NameValue { key_is_tag: false, value: 7 };
    assert_eq!(tag_of_attribute(&other), Err(SchemaError::UnknownKey));
    assert_eq!(tag_of_attribute(&AttributeShape::NotAList), Err(SchemaError::NotAList));
    assert_eq!(tag_of_attribute(&AttributeShape::BadItem), Err(SchemaError::BadItem));
}

#[test]
fn schema_entry_of_a_field() {
    let attribute = AttributeShape::NameValue { key_is_tag: true, value: 2 };
    let entry = field_schema(String::from("payload"), &attribute, &shape(true, true, true, false))
        .unwrap();
    assert_eq!(entry.name, "payload");
    assert_eq!(entry.tag, 2);
    assert_eq!(entry.kind, FieldKind::RawBytes);
    let failed = field_schema(String::from("x"), &AttributeShape::NotAList, &shape(true, false, false, false));
    assert_eq!(failed.err(), Some(SchemaError::NotAList));
}

#[test]
fn repeated_tag_is_found() {
    let entry = |tag: u8| FieldSchema::new(String::from("f"), tag, FieldKind::Regular);
    assert_eq!(check_distinct_tags(&[entry(1), entry(2), entry(3)]), Ok(()));
    assert_eq!(check_distinct_tags(&[]), Ok(()));
    assert_eq!(
        check_distinct_tags(&[entry(1), entry(2), entry(1), entry(2)]),
        Err(SchemaError::DuplicateTag(1))
    );
    assert_eq!(
        check_distinct_tags(&[entry(4), entry(5), entry(5), entry(4)]),
        Err(SchemaError::DuplicateTag(5))
    );
}
