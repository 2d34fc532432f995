use arith::{deserialize_all, serialize_all, FieldSerde, SerdeError};

fn encode<T: FieldSerde>(x: &T) -> Vec<u8> {
    let mut out = Vec::new();
    x.serialize_into(&mut out);
    out
}

#[test]
fn u64_is_written_least_significant_byte_first() {
    assert_eq!(encode(&0x0102030405060708u64), vec![8, 7, 6, 5, 4, 3, 2, 1]);
    assert_eq!(encode(&0u64), vec![0; 8]);
    assert_eq!(encode(&u64::MAX), vec![0xff; 8]);
    assert_eq!(encode(&258u64), vec![2, 1, 0, 0, 0, 0, 0, 0]);
}

#[test]
fn u64_serialized_size_is_eight() {
    assert_eq!(<u64 as FieldSerde>::serialized_size(), 8);
    assert_eq!(encode(&12345u64).len(), <u64 as FieldSerde>::serialized_size());
}

#[test]
fn u64_round_trip() {
    for x in [0u64, 1, 255, 256, 0xdead_beef, 1 << 63, u64::MAX - 1, u64::MAX] {
        let bytes = encode(&x);
        let mut pos = 0usize;
        assert_eq!(u64::deserialize_from(&bytes, &mut pos), Ok(x));
        assert_eq!(pos, 8);
    }
}

#[test]
fn u64_reads_little_endian_bytes() {
    let bytes = [0x78u8, 0x56, 0x34, 0x12, 0, 0, 0, 0];
    let mut pos = 0usize;
    assert_eq!(u64::deserialize_from(&bytes, &mut pos), Ok(0x1234_5678));
    assert_eq!(pos, 8);
}

#[test]
fn serialize_appends_to_existing_bytes() {
    let mut out = vec![9u8, 9];
    7u64.serialize_into(&mut out);
    assert_eq!(out, vec![9, 9, 7, 0, 0, 0, 0, 0, 0, 0]);
}

#[test]
fn values_read_back_in_sequence() {
    let mut out = Vec::new();
    5u64.serialize_into(&mut out);
    6u64.serialize_into(&mut out);
    let mut pos = 0usize;
    assert_eq!(u64::deserialize_from(&out, &mut pos), Ok(5));
    assert_eq!(u64::deserialize_from(&out, &mut pos), Ok(6));
    assert_eq!(pos, 16);
    assert_eq!(u64::deserialize_from(&out, &mut pos), Err(SerdeError::Truncated));
    assert_eq!(pos, 16);
}

#[test]
fn u64_short_input_is_truncated() {
    let bytes = [1u8, 2, 3, 4, 5, 6, 7];
    let mut pos = 0usize;
    assert_eq!(u64::deserialize_from(&bytes, &mut pos), Err(SerdeError::Truncated));
    assert_eq!(pos, 0);
    let empty: [u8; 0] = [];
    assert_eq!(u64::deserialize_from(&empty, &mut pos), Err(SerdeError::Truncated));
    assert_eq!(pos, 0);
}

#[test]
fn u64_position_past_end_is_truncated() {
    let bytes = [0u8; 8];
    let mut pos = 9usize;
    assert_eq!(u64::deserialize_from(&bytes, &mut pos), Err(SerdeError::Truncated));
    assert_eq!(pos, 9);
    let mut pos = 1usize;
    assert_eq!(u64::deserialize_from(&bytes, &mut pos), Err(SerdeError::Truncated));
    assert_eq!(pos, 1);
}

#[test]
fn array_is_written_element_by_element() {
    let x: [u64; 3] = [1, 0x0200, u64::MAX];
    let mut expected = vec![1u8, 0, 0, 0, 0, 0, 0, 0];
    expected.extend_from_slice(&[0, 2, 0, 0, 0, 0, 0, 0]);
    expected.extend_from_slice(&[0xff; 8]);
    assert_eq!(encode(&x), expected);
}

#[test]
fn array_serialized_size_scales_with_length() {
    assert_eq!(<[u64; 3] as FieldSerde>::serialized_size(), 24);
    assert_eq!(<[u64; 1] as FieldSerde>::serialized_size(), 8);
    assert_eq!(<[[u64; 2]; 4] as FieldSerde>::serialized_size(), 64);
    assert_eq!(encode(&[[1u64, 2], [3, 4]]).len(), <[[u64; 2]; 2] as FieldSerde>::serialized_size());
}

#[test]
fn array_round_trip() {
    let x: [u64; 4] = [10, 0, u64::MAX, 1 << 40];
    let bytes = encode(&x);
    let mut pos = 0usize;
    assert_eq!(<[u64; 4]>::deserialize_from(&bytes, &mut pos), Ok(x));
    assert_eq!(pos, 32);
}

#[test]
fn nested_array_round_trip() {
    let x: [[u64; 2]; 3] = [[1, 2], [3, 4], [5, u64::MAX]];
    let mut bytes = vec![0xaau8];
    x.serialize_into(&mut bytes);
    bytes.push(0xbb);
    let mut pos = 1usize;
    assert_eq!(<[[u64; 2]; 3]>::deserialize_from(&bytes, &mut pos), Ok(x));
    assert_eq!(pos, 49);
}

#[test]
fn empty_array_takes_no_bytes() {
    let x: [u64; 0] = [];
    assert_eq!(encode(&x), Vec::<u8>::new());
    assert_eq!(<[u64; 0] as FieldSerde>::serialized_size(), 0);
    let bytes = [1u8, 2];
    let mut pos = 2usize;
    assert_eq!(<[u64; 0]>::deserialize_from(&bytes, &mut pos), Ok(x));
    assert_eq!(pos, 2);
    let mut pos = 3usize;
    assert_eq!(<[u64; 0]>::deserialize_from(&bytes, &mut pos), Err(SerdeError::Truncated));
    assert_eq!(pos, 3);
}

#[test]
fn array_short_input_is_truncated() {
    let mut bytes = encode(&[1u64, 2, 3]);
    bytes.pop();
    let mut pos = 0usize;
    assert_eq!(<[u64; 3]>::deserialize_from(&bytes, &mut pos), Err(SerdeError::Truncated));
    assert_eq!(pos, 0);
    let mut pos = 8usize;
    assert_eq!(<[u64; 2]>::deserialize_from(&bytes, &mut pos), Err(SerdeError::Truncated));
    assert_eq!(pos, 8);
    assert_eq!(<[u64; 1]>::deserialize_from(&bytes, &mut pos), Ok([2]));
    assert_eq!(pos, 16);
}

#[test]
fn ecc_format_is_not_read_by_u64() {
    let bytes = [0u8; 32];
    let mut pos = 0usize;
    assert_eq!(
        u64::try_deserialize_from_ecc_format(&bytes, &mut pos),
        Err(SerdeError::UnsupportedFormat)
    );
    assert_eq!(pos, 0);
}

#[test]
fn ecc_format_is_not_read_by_arrays() {
    let bytes = [0u8; 64];
    let mut pos = 0usize;
    assert_eq!(
        <[u64; 2]>::try_deserialize_from_ecc_format(&bytes, &mut pos),
        Err(SerdeError::UnsupportedFormat)
    );
    assert_eq!(pos, 0);
}

#[test]
fn runs_round_trip() {
    let values = [4u64, 0, u64::MAX, 17];
    let mut bytes = vec![1u8, 2, 3];
    serialize_all(&values, &mut bytes);
    assert_eq!(bytes.len(), 3 + 32);
    assert_eq!(&bytes[3..11], &[4, 0, 0, 0, 0, 0, 0, 0]);
    let mut pos = 3usize;
    assert_eq!(deserialize_all::<u64>(&bytes, &mut pos, 4), Ok(values.to_vec()));
    assert_eq!(pos, 35);
}

#[test]
fn empty_run_reads_nothing() {
    let mut bytes = Vec::new();
    serialize_all::<u64>(&[], &mut bytes);
    assert!(bytes.is_empty());
    let mut pos = 0usize;
    assert_eq!(deserialize_all::<u64>(&bytes, &mut pos, 0), Ok(Vec::new()));
    assert_eq!(pos, 0);
}

#[test]
fn short_run_is_truncated() {
    let mut bytes = Vec::new();
    serialize_all(&[1u64, 2], &mut bytes);
    let mut pos = 0usize;
    assert_eq!(deserialize_all::<u64>(&bytes, &mut pos, 3), Err(SerdeError::Truncated));
    assert_eq!(pos, 0);
    let mut pos = 17usize;
    assert_eq!(deserialize_all::<u64>(&bytes, &mut pos, 0), Err(SerdeError::Truncated));
    assert_eq!(pos, 17);
}
