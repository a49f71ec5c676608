use tlv::{
    bytes_payload, decode_bytes, decode_optional, decode_record, decode_regular,
    encode_bytes_field, encode_field, encode_record, extract_frames, extract_raw,
    regular_payload, resolve_fields, write_frame, FieldKind, FieldSchema, RawField, TlvError,
};

fn message_schema() -> Vec<FieldSchema> {
    vec![
        FieldSchema::new(String::from("id"), 1, FieldKind::Regular),
        FieldSchema::new(String::from("payload"), 2, FieldKind::RawBytes),
        FieldSchema::new(String::from("description"), 3, FieldKind::Optional),
    ]
}

fn message_bytes(id: u32, payload: &[u8], description: &Option<String>) -> Vec<u8> {
    let mut buf = Vec::new();
    let mut written = encode_field(1, &id, &mut buf).unwrap();
    written += encode_bytes_field(2, payload, &mut buf).unwrap();
    written += encode_field(3, description, &mut buf).unwrap();
    assert_eq!(written, buf.len());
    buf
}

#[test]
fn raw_field_keeps_what_it_is_given() {
    let field = RawField::new(4, 2, vec![8, 9]);
    assert_eq!(field.id, 4);
    assert_eq!(field.len, 2);
    assert_eq!(field.value, vec![8, 9]);
}

#[test]
fn frame_is_tag_length_value() {
    let mut buf = Vec::new();
    assert_eq!(write_frame(7, &[0xAA, 0xBB], &mut buf), Ok(5));
    assert_eq!(buf, vec![7, 2, 0, 0xAA, 0xBB]);
}

#[test]
fn tag_is_one_byte_in_both_directions() {
    let mut buf = Vec::new();
    assert_eq!(encode_field(1, &7u32, &mut buf), Ok(7));
    assert_eq!(buf, vec![1, 4, 0, 7, 0, 0, 0]);
    let table = extract_raw(&mut buf.as_slice(), [1u8]).unwrap();
    assert_eq!(table.len(), 1);
    assert_eq!(table[&1].id, 1);
    assert_eq!(table[&1].len, 4);
    assert_eq!(table[&1].value, vec![7, 0, 0, 0]);
    assert_eq!(decode_regular::<u32>(&table, 1), Ok(7));
}

#[test]
fn length_marker_is_the_encoded_length() {
    let mut buf = Vec::new();
    encode_field(9, &String::from("abc"), &mut buf).unwrap();
    assert_eq!(buf, vec![9, 7, 0, 3, 0, 0, 0, b'a', b'b', b'c']);
    let mut buf = Vec::new();
    encode_bytes_field(2, &[5, 6], &mut buf).unwrap();
    assert_eq!(buf, vec![2, 6, 0, 2, 0, 0, 0, 5, 6]);
}

#[test]
fn record_round_trips_field_by_field() {
    let description = Some(String::from("hi"));
    let bytes = message_bytes(0xABCD, &[1, 2, 3], &description);
    let mut reader = bytes.as_slice();
    let table = extract_raw(&mut reader, [1u8, 2, 3]).unwrap();
    assert!(reader.is_empty());
    assert_eq!(decode_regular::<u32>(&table, 1), Ok(0xABCD));
    assert_eq!(decode_bytes(&table, 2), Ok(vec![1, 2, 3]));
    assert_eq!(decode_optional::<String>(&table, 3), Ok(description));
}

#[test]
fn absent_optional_value_still_takes_a_frame() {
    let bytes = message_bytes(5, &[], &None);
    assert_eq!(
        bytes,
        vec![1, 4, 0, 5, 0, 0, 0, 2, 4, 0, 0, 0, 0, 0, 3, 1, 0, 0]
    );
    let mut reader = bytes.as_slice();
    let table = extract_frames(&mut reader, 3).unwrap();
    assert!(reader.is_empty());
    assert_eq!(table.len(), 3);
    assert_eq!(decode_optional::<String>(&table, 3), Ok(None));
    assert_eq!(decode_bytes(&table, 2), Ok(vec![]));
}

#[test]
fn frames_may_come_in_any_order() {
    let mut buf = Vec::new();
    encode_field(3, &Some(9u8), &mut buf).unwrap();
    encode_field(1, &77u32, &mut buf).unwrap();
    let table = extract_raw(&mut buf.as_slice(), [1u8, 3]).unwrap();
    assert_eq!(decode_regular::<u32>(&table, 1), Ok(77));
    assert_eq!(decode_optional::<u8>(&table, 3), Ok(Some(9)));
}

#[test]
fn missing_regular_field_fails() {
    let mut buf = Vec::new();
    encode_field(8, &1u8, &mut buf).unwrap();
    let table = extract_raw(&mut buf.as_slice(), [1u8]).unwrap();
    assert_eq!(decode_regular::<u8>(&table, 1), Err(TlvError::MissingField(1)));
    assert_eq!(decode_bytes(&table, 1), Ok(vec![]));
    assert_eq!(decode_optional::<u8>(&table, 1), Ok(None));
}

#[test]
fn foreign_tag_is_passed_over() {
    let mut buf = Vec::new();
    encode_field(1, &6u16, &mut buf).unwrap();
    encode_field(200, &String::from("x"), &mut buf).unwrap();
    let table = extract_raw(&mut buf.as_slice(), [1u8, 2]).unwrap();
    assert_eq!(table.len(), 2);
    assert_eq!(decode_regular::<u16>(&table, 1), Ok(6));
    assert_eq!(decode_bytes(&table, 2), Ok(vec![]));
    let schema = vec![FieldSchema::new(String::from("n"), 1, FieldKind::Regular)];
    assert_eq!(resolve_fields(&table, &schema), Ok(vec![Some(vec![6, 0])]));
}

#[test]
fn later_frame_replaces_an_earlier_one() {
    let mut buf = Vec::new();
    encode_field(1, &6u16, &mut buf).unwrap();
    encode_field(1, &7u16, &mut buf).unwrap();
    let table = extract_frames(&mut buf.as_slice(), 2).unwrap();
    assert_eq!(table.len(), 1);
    assert_eq!(decode_regular::<u16>(&table, 1), Ok(7));
}

#[test]
fn truncated_stream_gives_nothing() {
    let whole = message_bytes(5, &[1, 2], &None);
    let mut cut = whole.len();
    while cut > 0 {
        cut -= 1;
        let result = extract_raw(&mut &whole[..cut], [1u8, 2, 3]);
        assert_eq!(result.err(), Some(TlvError::TruncatedInput));
    }
    let short = [1u8, 4, 0, 9, 9];
    assert_eq!(
        extract_frames(&mut short.as_slice(), 1).err(),
        Some(TlvError::TruncatedInput)
    );
    assert_eq!(
        extract_frames(&mut [1u8, 0, 0].as_slice(), 2).err(),
        Some(TlvError::TruncatedInput)
    );
}

#[test]
fn extraction_reads_no_more_than_it_is_asked() {
    let bytes = [1u8, 1, 0, 9, 2, 0, 0, 5];
    let mut reader = bytes.as_slice();
    let table = extract_frames(&mut reader, 1).unwrap();
    assert_eq!(table.len(), 1);
    assert_eq!(reader, &[2u8, 0, 0, 5][..]);
    let mut reader = bytes.as_slice();
    let table = extract_frames(&mut reader, 0).unwrap();
    assert!(table.is_empty());
    assert_eq!(reader.len(), 8);
}

#[test]
fn field_value_errors_come_through() {
    let mut buf = Vec::new();
    write_frame(1, &[7], &mut buf).unwrap();
    write_frame(2, &[5, 0, 0, 0, 1], &mut buf).unwrap();
    write_frame(3, &[1, 1, 0, 0, 0, 0xFF], &mut buf).unwrap();
    let table = extract_frames(&mut buf.as_slice(), 3).unwrap();
    assert_eq!(decode_regular::<u32>(&table, 1), Err(TlvError::TruncatedInput));
    assert_eq!(decode_bytes(&table, 2), Err(TlvError::TruncatedInput));
    assert_eq!(
        decode_optional::<String>(&table, 3),
        Err(TlvError::InvalidEncoding)
    );
}

#[test]
fn oversized_payload_is_refused() {
    let mut buf = vec![1u8, 2, 3];
    let big = vec![0u8; 0x1_0000];
    assert_eq!(write_frame(1, &big, &mut buf), Err(TlvError::ValueTooLarge));
    assert_eq!(buf, vec![1, 2, 3]);
    assert_eq!(encode_field(1, &big, &mut buf), Err(TlvError::ValueTooLarge));
    assert_eq!(
        encode_bytes_field(1, &big[..0xFFFC], &mut buf),
        Err(TlvError::ValueTooLarge)
    );
    assert_eq!(buf, vec![1, 2, 3]);
    let fits = vec![0u8; 0xFFFF];
    assert_eq!(write_frame(1, &fits, &mut buf), Ok(3 + 0xFFFF));
    assert_eq!(&buf[..6], &[1, 2, 3, 1, 0xFF, 0xFF]);
}

#[test]
fn schema_driven_record_round_trip() {
    let schema = message_schema();
    let payloads = vec![
        regular_payload(&0xABCDu32).unwrap(),
        bytes_payload(&[1, 2, 3]).unwrap(),
        regular_payload(&None::<String>).unwrap(),
    ];
    let mut buf = Vec::new();
    assert_eq!(encode_record(&schema, &payloads, &mut buf), Ok(21));
    assert_eq!(buf, message_bytes(0xABCD, &[1, 2, 3], &None));
    let mut reader = buf.as_slice();
    let found = decode_record(&mut reader, &schema).unwrap();
    assert!(reader.is_empty());
    assert_eq!(
        found,
        vec![
            Some(vec![0xCD, 0xAB, 0, 0]),
            Some(vec![3, 0, 0, 0, 1, 2, 3]),
            Some(vec![0]),
        ]
    );
}

#[test]
fn schema_driven_decode_applies_each_kind() {
    let schema = message_schema();
    let mut buf = Vec::new();
    write_frame(1, &[1, 0, 0, 0], &mut buf).unwrap();
    write_frame(9, &[], &mut buf).unwrap();
    write_frame(10, &[], &mut buf).unwrap();
    assert_eq!(
        decode_record(&mut buf.as_slice(), &schema),
        Ok(vec![Some(vec![1, 0, 0, 0]), None, None])
    );
    let mut buf = Vec::new();
    write_frame(2, &[0, 0, 0, 0], &mut buf).unwrap();
    write_frame(3, &[0], &mut buf).unwrap();
    write_frame(9, &[], &mut buf).unwrap();
    assert_eq!(
        decode_record(&mut buf.as_slice(), &schema),
        Err(TlvError::MissingField(1))
    );
    assert_eq!(
        decode_record(&mut buf[..5].as_ref(), &schema),
        Err(TlvError::TruncatedInput)
    );
}

#[test]
fn record_of_no_fields_is_empty() {
    let schema: Vec<FieldSchema> = Vec::new();
    let payloads: Vec<Vec<u8>> = Vec::new();
    let mut buf = Vec::new();
    assert_eq!(encode_record(&schema, &payloads, &mut buf), Ok(0));
    assert!(buf.is_empty());
    assert_eq!(decode_record(&mut [1u8, 2].as_slice(), &schema), Ok(vec![]));
}

#[test]
fn record_with_an_oversized_field_writes_nothing() {
    let schema = vec![
        FieldSchema::new(String::from("a"), 1, FieldKind::Regular),
        FieldSchema::new(String::from("b"), 2, FieldKind::RawBytes),
    ];
    let payloads = vec![vec![1u8], vec![0u8; 0x1_0000]];
    let mut buf = vec![9u8];
    assert_eq!(
        encode_record(&schema, &payloads, &mut buf),
        Err(TlvError::ValueTooLarge)
    );
    assert_eq!(buf, vec![9]);
}

#[test]
fn kind_follows_the_declared_type() {
    assert_eq!(FieldKind::classify(true, false), FieldKind::RawBytes);
    assert_eq!(FieldKind::classify(true, true), FieldKind::RawBytes);
    assert_eq!(FieldKind::classify(false, true), FieldKind::Optional);
    assert_eq!(FieldKind::classify(false, false), FieldKind::Regular);
}
