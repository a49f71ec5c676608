use std::collections::{BTreeMap, HashMap};
use tlv::{deserialize, deserialize_bytes, serialize, serialize_bytes};
use tlv::{Deserialize, Serialize, TlvError};

#[test]
fn test_u8() {
    let mut buf = Vec::new();
    42u8.serialize(&mut buf).unwrap();
    assert_eq!(buf, vec![42]);
    assert_eq!(u8::deserialize(&mut buf.as_slice()).unwrap(), 42);
}

#[test]
fn test_u16() {
    let mut buf = Vec::new();
    42u16.serialize(&mut buf).unwrap();
    assert_eq!(buf, vec![42, 0]);
    assert_eq!(u16::deserialize(&mut buf.as_slice()).unwrap(), 42);
}

#[test]
fn test_u32() {
    let mut buf = Vec::new();
    42u32.serialize(&mut buf).unwrap();
    assert_eq!(buf, vec![42, 0, 0, 0]);
    assert_eq!(u32::deserialize(&mut buf.as_slice()).unwrap(), 42);
}

#[test]
fn test_u64() {
    let mut buf = Vec::new();
    42u64.serialize(&mut buf).unwrap();
    assert_eq!(buf, vec![42, 0, 0, 0, 0, 0, 0, 0]);
    assert_eq!(u64::deserialize(&mut buf.as_slice()).unwrap(), 42);
}

#[test]
fn test_vec() {
    let mut buf = Vec::new();
    vec![1u8, 2, 3].serialize(&mut buf).unwrap();
    assert_eq!(buf, vec![3, 0, 0, 0, 1, 2, 3]);
    assert_eq!(
        Vec::<u8>::deserialize(&mut buf.as_slice()).unwrap(),
        vec![1, 2, 3]
    );
}

#[test]
fn test_hash_map() {
    let mut buf = Vec::new();
    let mut map = HashMap::new();
    map.insert(1u8, 2u8);
    map.insert(3, 4);
    map.serialize(&mut buf).unwrap();
    // A hash map hands its entries out in an order of its own, and the
    // bytes follow that order.
    let expected = if *map.keys().next().unwrap() == 1 {
        vec![2, 0, 0, 0, 1, 2, 3, 4]
    } else {
        vec![2, 0, 0, 0, 3, 4, 1, 2]
    };
    assert_eq!(buf, expected);
    assert_eq!(
        HashMap::<u8, u8>::deserialize(&mut buf.as_slice()).unwrap(),
        map
    );
}

#[test]
fn test_btree_map() {
    let mut buf = Vec::new();
    let mut map = BTreeMap::new();
    map.insert(1u8, 2u8);
    map.insert(3, 4);
    map.serialize(&mut buf).unwrap();
    assert_eq!(buf, vec![2, 0, 0, 0, 1, 2, 3, 4]);
    assert_eq!(
        BTreeMap::<u8, u8>::deserialize(&mut buf.as_slice()).unwrap(),
        map
    );
}

#[test]
fn test_serialized_length() {
    assert_eq!(42u8.serialized_length(), 1);
    assert_eq!(42u16.serialized_length(), 2);
    assert_eq!(42u32.serialized_length(), 4);
    assert_eq!(42u64.serialized_length(), 8);
    assert_eq!(
        vec![1u8, 2, 3].serialized_length(),
        4 + 3,
        "length (4 bytes) + 3 bytes"
    );
    let mut map = HashMap::new();
    map.insert(1u8, 2u8);
    map.insert(3, 4);
    assert_eq!(map.serialized_length(), 8);
    let mut map = BTreeMap::new();
    map.insert(1u8, 2u8);
    map.insert(3, 4);
    assert_eq!(map.serialized_length(), 8);
}

fn encoded<T: Serialize>(value: &T) -> Vec<u8> {
    let mut buf = Vec::new();
    let written = serialize(value, &mut buf).unwrap();
    assert_eq!(written, buf.len());
    buf
}

#[test]
fn bool_is_one_byte() {
    assert_eq!(encoded(&true), vec![1]);
    assert_eq!(encoded(&false), vec![0]);
    assert_eq!(bool::deserialize(&mut [0u8].as_slice()).unwrap(), false);
    assert_eq!(bool::deserialize(&mut [1u8].as_slice()).unwrap(), true);
    assert_eq!(bool::deserialize(&mut [7u8].as_slice()).unwrap(), true);
    assert_eq!(true.serialized_length(), 1);
}

#[test]
fn integers_are_little_endian() {
    assert_eq!(encoded(&300u16), vec![0x2C, 0x01]);
    assert_eq!(encoded(&0x0102_0304u32), vec![4, 3, 2, 1]);
    assert_eq!(
        encoded(&0x0102_0304_0506_0708u64),
        vec![8, 7, 6, 5, 4, 3, 2, 1]
    );
    assert_eq!(u16::deserialize(&mut [0x2C, 0x01].as_slice()).unwrap(), 300);
    assert_eq!(
        u32::deserialize(&mut [4, 3, 2, 1].as_slice()).unwrap(),
        0x0102_0304
    );
    assert_eq!(
        u64::deserialize(&mut [8, 7, 6, 5, 4, 3, 2, 1].as_slice()).unwrap(),
        0x0102_0304_0506_0708
    );
    assert_eq!(
        u64::deserialize(&mut encoded(&u64::MAX).as_slice()).unwrap(),
        u64::MAX
    );
}

#[test]
fn decoding_advances_the_reader() {
    let bytes = [1u8, 0, 2, 0, 9];
    let mut reader = bytes.as_slice();
    assert_eq!(deserialize::<u16>(&mut reader).unwrap(), 1);
    assert_eq!(deserialize::<u16>(&mut reader).unwrap(), 2);
    assert_eq!(reader, &[9u8][..]);
    assert_eq!(deserialize::<u16>(&mut reader), Err(TlvError::TruncatedInput));
}

#[test]
fn short_input_is_truncated() {
    assert_eq!(u8::deserialize(&mut [].as_slice()), Err(TlvError::TruncatedInput));
    assert_eq!(bool::deserialize(&mut [].as_slice()), Err(TlvError::TruncatedInput));
    assert_eq!(u16::deserialize(&mut [1].as_slice()), Err(TlvError::TruncatedInput));
    assert_eq!(u32::deserialize(&mut [1, 2, 3].as_slice()), Err(TlvError::TruncatedInput));
    assert_eq!(
        u64::deserialize(&mut [1, 2, 3, 4, 5, 6, 7].as_slice()),
        Err(TlvError::TruncatedInput)
    );
    assert_eq!(
        Vec::<u8>::deserialize(&mut [3, 0, 0, 0, 1, 2].as_slice()),
        Err(TlvError::TruncatedInput)
    );
    assert_eq!(
        String::deserialize(&mut [3, 0, 0, 0, b'a', b'b'].as_slice()),
        Err(TlvError::TruncatedInput)
    );
    assert_eq!(
        Option::<u16>::deserialize(&mut [1, 7].as_slice()),
        Err(TlvError::TruncatedInput)
    );
    assert_eq!(
        BTreeMap::<u8, u8>::deserialize(&mut [2, 0, 0, 0, 1, 2, 3].as_slice()),
        Err(TlvError::TruncatedInput)
    );
}

#[test]
fn option_carries_a_presence_flag() {
    assert_eq!(encoded(&Some(300u16)), vec![1, 0x2C, 0x01]);
    assert_eq!(encoded(&None::<u16>), vec![0]);
    assert_eq!(Some(300u16).serialized_length(), 3);
    assert_eq!(None::<u16>.serialized_length(), 1);
    assert_eq!(
        Option::<u16>::deserialize(&mut [1, 0x2C, 0x01].as_slice()).unwrap(),
        Some(300)
    );
    assert_eq!(
        Option::<u16>::deserialize(&mut [5, 0x2C, 0x01].as_slice()).unwrap(),
        Some(300)
    );
    let bytes = [0u8, 9, 9];
    let mut reader = bytes.as_slice();
    assert_eq!(Option::<u16>::deserialize(&mut reader).unwrap(), None);
    assert_eq!(reader.len(), 2);
}

#[test]
fn nested_values_round_trip() {
    let value: Vec<Option<Vec<u16>>> = vec![Some(vec![1, 2, 300]), None, Some(vec![])];
    let bytes = encoded(&value);
    assert_eq!(value.serialized_length() as usize, bytes.len());
    let back = Vec::<Option<Vec<u16>>>::deserialize(&mut bytes.as_slice()).unwrap();
    assert_eq!(back, value);
}

#[test]
fn text_is_length_then_utf8() {
    let text = String::from("h\u{e9}");
    let bytes = encoded(&text);
    assert_eq!(bytes, vec![3, 0, 0, 0, b'h', 0xC3, 0xA9]);
    assert_eq!(text.serialized_length(), 7);
    assert_eq!(String::deserialize(&mut bytes.as_slice()).unwrap(), text);
    assert_eq!(encoded(&String::new()), vec![0, 0, 0, 0]);
}

#[test]
fn text_must_be_utf8() {
    assert_eq!(
        String::deserialize(&mut [2, 0, 0, 0, 0xC3, 0x28].as_slice()),
        Err(TlvError::InvalidEncoding)
    );
    assert_eq!(
        String::deserialize(&mut [1, 0, 0, 0, 0xFF].as_slice()),
        Err(TlvError::InvalidEncoding)
    );
}

#[test]
fn long_values_clamp_their_length() {
    let long: Vec<u8> = vec![7; 70_000];
    assert_eq!(long.serialized_length(), 0xFFFF);
    let edge: Vec<u8> = vec![7; 0xFFFF - 4];
    assert_eq!(edge.serialized_length(), 0xFFFF);
    let under: Vec<u8> = vec![7; 0xFFFF - 5];
    assert_eq!(under.serialized_length(), 0xFFFE);
}

#[test]
fn key_ordered_map_ignores_insertion_order() {
    let mut forward = BTreeMap::new();
    forward.insert(1u8, 2u8);
    forward.insert(3, 4);
    let mut backward = BTreeMap::new();
    backward.insert(3u8, 4u8);
    backward.insert(1, 2);
    assert_eq!(encoded(&forward), encoded(&backward));
    assert_eq!(encoded(&forward), vec![2, 0, 0, 0, 1, 2, 3, 4]);
}

#[test]
fn hash_map_decodes_to_the_same_map_either_way() {
    let mut forward = HashMap::new();
    forward.insert(1u8, 2u8);
    forward.insert(3, 4);
    let mut backward = HashMap::new();
    backward.insert(3u8, 4u8);
    backward.insert(1, 2);
    let a = HashMap::<u8, u8>::deserialize(&mut encoded(&forward).as_slice()).unwrap();
    let b = HashMap::<u8, u8>::deserialize(&mut encoded(&backward).as_slice()).unwrap();
    assert_eq!(a, b);
    assert_eq!(a, forward);
    let c = HashMap::<u8, u8>::deserialize(&mut [2, 0, 0, 0, 3, 4, 1, 2].as_slice()).unwrap();
    assert_eq!(c, forward);
}

#[test]
fn later_pair_wins_on_a_repeated_key() {
    let bytes = [2u8, 0, 0, 0, 1, 2, 1, 9];
    let map = BTreeMap::<u8, u8>::deserialize(&mut bytes.as_slice()).unwrap();
    assert_eq!(map.len(), 1);
    assert_eq!(map[&1], 9);
    let map = HashMap::<u8, u8>::deserialize(&mut bytes.as_slice()).unwrap();
    assert_eq!(map.len(), 1);
    assert_eq!(map[&1], 9);
}

#[test]
fn maps_of_wider_keys_and_values() {
    let mut map = BTreeMap::new();
    map.insert(300u16, String::from("a"));
    map.insert(2u16, String::from("bc"));
    let bytes = encoded(&map);
    assert_eq!(
        bytes,
        vec![2, 0, 0, 0, 2, 0, 2, 0, 0, 0, b'b', b'c', 0x2C, 0x01, 1, 0, 0, 0, b'a']
    );
    assert_eq!(map.serialized_length() as usize, bytes.len());
    assert_eq!(
        BTreeMap::<u16, String>::deserialize(&mut bytes.as_slice()).unwrap(),
        map
    );
}

#[test]
fn raw_bytes_are_length_prefixed() {
    let mut buf = Vec::new();
    assert_eq!(serialize_bytes(&[9, 8, 7], &mut buf), Ok(7));
    assert_eq!(buf, vec![3, 0, 0, 0, 9, 8, 7]);
    let mut reader = buf.as_slice();
    assert_eq!(deserialize_bytes(&mut reader).unwrap(), vec![9, 8, 7]);
    assert!(reader.is_empty());
    assert_eq!(
        deserialize_bytes(&mut [2, 0, 0, 0, 1].as_slice()),
        Err(TlvError::TruncatedInput)
    );
    assert_eq!(
        deserialize_bytes(&mut [2, 0, 0].as_slice()),
        Err(TlvError::TruncatedInput)
    );
}

#[test]
fn byte_array_is_written_bare() {
    let value: [u8; 3] = [9, 8, 7];
    assert_eq!(encoded(&value), vec![9, 8, 7]);
    assert_eq!(value.serialized_length(), 3);
    let bytes = [9u8, 8, 7, 6];
    let mut reader = bytes.as_slice();
    assert_eq!(<[u8; 3]>::deserialize(&mut reader).unwrap(), value);
    assert_eq!(reader, &[6u8][..]);
    assert_eq!(
        <[u8; 5]>::deserialize(&mut bytes.as_slice()),
        Err(TlvError::TruncatedInput)
    );
    assert_eq!(<[u8; 0]>::deserialize(&mut [].as_slice()).unwrap(), []);
}

#[test]
fn failed_write_leaves_the_writer_alone() {
    let mut buf = vec![5u8];
    assert_eq!(serialize(&vec![1u16, 2], &mut buf), Ok(8));
    assert_eq!(buf, vec![5, 2, 0, 0, 0, 1, 0, 2, 0]);
}
