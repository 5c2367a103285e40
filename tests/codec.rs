use garlicoin::encode::{
    decode_bytes, decode_compact_size, decode_u32, decode_u64, decode_uint256, deserialize_bytes,
    deserialize, deserialize_partial, encode_bytes, encode_compact_size, encode_u32, encode_u64,
    encode_uint256, serialize, serialize_bytes, DecodeError, Decodable, Encodable,
};
use garlicoin::uint::Uint256;

fn compact(n: u64) -> Vec<u8> {
    let mut out = Vec::new();
    let written = encode_compact_size(n, &mut out);
    assert_eq!(written, out.len());
    out
}

#[test]
fn compact_size_boundaries() {
    assert_eq!(compact(0), vec![0x00]);
    assert_eq!(compact(0xfc), vec![0xfc]);
    assert_eq!(compact(0xfd), vec![0xfd, 0xfd, 0x00]);
    assert_eq!(compact(0xffff), vec![0xfd, 0xff, 0xff]);
    assert_eq!(compact(0x10000), vec![0xfe, 0x00, 0x00, 0x01, 0x00]);
    assert_eq!(compact(0xffff_ffff), vec![0xfe, 0xff, 0xff, 0xff, 0xff]);
    assert_eq!(
        compact(0x1_0000_0000),
        vec![0xff, 0x00, 0x00, 0x00, 0x00, 0x01, 0x00, 0x00, 0x00]
    );
    assert_eq!(compact(u64::MAX).len(), 9);
}

#[test]
fn compact_size_round_trips() {
    for n in [0u64, 1, 0xfc, 0xfd, 0xfe, 0xffff, 0x10000, 0xffff_ffff, 0x1_0000_0000, u64::MAX] {
        let mut out = vec![0xaa];
        encode_compact_size(n, &mut out);
        out.push(0xbb);
        let (v, next) = decode_compact_size(&out, 1).unwrap();
        assert_eq!(v, n);
        assert_eq!(next, out.len() - 1);
    }
}

#[test]
fn compact_size_rejects_short_and_non_minimal() {
    assert_eq!(decode_compact_size(&[], 0), Err(DecodeError::UnexpectedEnd));
    assert_eq!(decode_compact_size(&[0xfe, 0x01, 0x00], 0), Err(DecodeError::UnexpectedEnd));
    assert_eq!(decode_compact_size(&[0xfd, 0xfc, 0x00], 0), Err(DecodeError::NonMinimalCompactSize));
    assert_eq!(
        decode_compact_size(&[0xfe, 0xff, 0xff, 0x00, 0x00], 0),
        Err(DecodeError::NonMinimalCompactSize)
    );
    assert_eq!(
        decode_compact_size(&[0xff, 0xff, 0xff, 0xff, 0xff, 0x00, 0x00, 0x00, 0x00], 0),
        Err(DecodeError::NonMinimalCompactSize)
    );
    assert_eq!(decode_compact_size(&[0xfd, 0xfd, 0x00], 0), Ok((0xfd, 3)));
}

#[test]
fn integers_are_little_endian() {
    let mut out = Vec::new();
    assert_eq!(encode_u32(0x0102_0304, &mut out), 4);
    assert_eq!(out, vec![0x04, 0x03, 0x02, 0x01]);
    assert_eq!(encode_u64(0x0102_0304_0506_0708, &mut out), 8);
    assert_eq!(out[4..], [0x08, 0x07, 0x06, 0x05, 0x04, 0x03, 0x02, 0x01]);
    assert_eq!(decode_u32(&out, 0), Ok((0x0102_0304, 4)));
    assert_eq!(decode_u64(&out, 4), Ok((0x0102_0304_0506_0708, 12)));
    assert_eq!(decode_u32(&out, 9), Err(DecodeError::UnexpectedEnd));
    assert_eq!(decode_u64(&out, 13), Err(DecodeError::UnexpectedEnd));
}

#[test]
fn integers_round_trip() {
    for n in [0u32, 1, 0xff, 0x100, 0xdead_beef, u32::MAX] {
        let mut out = Vec::new();
        encode_u32(n, &mut out);
        assert_eq!(decode_u32(&out, 0), Ok((n, 4)));
    }
    for n in [0u64, 1, 0x1_0000_0000, u64::MAX] {
        let mut out = Vec::new();
        encode_u64(n, &mut out);
        assert_eq!(decode_u64(&out, 0), Ok((n, 8)));
    }
}

#[test]
fn byte_strings_round_trip() {
    let empty: Vec<u8> = Vec::new();
    assert_eq!(serialize_bytes(&empty), vec![0x00]);
    assert_eq!(deserialize_bytes(&[0x00]), Ok(empty));
    let data = vec![1u8, 2, 3];
    let wire = serialize_bytes(&data);
    assert_eq!(wire, vec![0x03, 1, 2, 3]);
    assert_eq!(deserialize_bytes(&wire), Ok(data.clone()));
    let long = vec![7u8; 300];
    let wire = serialize_bytes(&long);
    assert_eq!(wire.len(), 303);
    assert_eq!(wire[..3], [0xfd, 0x2c, 0x01]);
    assert_eq!(deserialize_bytes(&wire), Ok(long));
}

#[test]
fn byte_strings_in_a_stream() {
    let mut out = Vec::new();
    assert_eq!(encode_bytes(&[9, 8], &mut out), 3);
    assert_eq!(encode_bytes(&[], &mut out), 1);
    assert_eq!(encode_bytes(&[5], &mut out), 2);
    assert_eq!(out, vec![2, 9, 8, 0, 1, 5]);
    let (a, p) = decode_bytes(&out, 0).unwrap();
    let (b, q) = decode_bytes(&out, p).unwrap();
    let (c, r) = decode_bytes(&out, q).unwrap();
    assert_eq!((a, b, c, r), (vec![9, 8], vec![], vec![5], 6));
}

#[test]
fn byte_strings_reject_bad_input() {
    assert_eq!(deserialize_bytes(&[0x05, 1, 2]), Err(DecodeError::LengthTooLong));
    assert_eq!(deserialize_bytes(&[0x01, 1, 2]), Err(DecodeError::TrailingBytes));
    assert_eq!(deserialize_bytes(&[]), Err(DecodeError::UnexpectedEnd));
    assert_eq!(decode_bytes(&[0xfd, 0x00, 0x01, 1], 0), Err(DecodeError::LengthTooLong));
}

#[test]
fn uint256_bytes_round_trip() {
    let x = Uint256::from_limbs([0x0102_0304_0506_0708, 0x1112_1314_1516_1718, 0x2122_2324_2526_2728, 0x3132_3334_3536_3738]);
    let mut out = vec![0xee];
    assert_eq!(encode_uint256(&x, &mut out), 32);
    assert_eq!(out.len(), 33);
    assert_eq!(out[1..9], [0x38, 0x37, 0x36, 0x35, 0x34, 0x33, 0x32, 0x31]);
    assert_eq!(out[25..33], [0x08, 0x07, 0x06, 0x05, 0x04, 0x03, 0x02, 0x01]);
    assert_eq!(decode_uint256(&out, 1), Ok((x, 33)));
    assert_eq!(decode_uint256(&out, 2), Err(DecodeError::UnexpectedEnd));
}

#[test]
fn generic_serialize_round_trips() {
    let wire = serialize(&0x0a0b_0c0du32);
    assert_eq!(wire, vec![0x0d, 0x0c, 0x0b, 0x0a]);
    assert_eq!(deserialize::<u32>(&wire), Ok(0x0a0b_0c0d));
    let wire = serialize(&u64::MAX);
    assert_eq!(deserialize::<u64>(&wire), Ok(u64::MAX));
    let x = Uint256::from_limbs([1, 2, 3, 4]);
    assert_eq!(deserialize::<Uint256>(&serialize(&x)), Ok(x));
    let b = vec![4u8, 5, 6];
    assert_eq!(serialize(&b), vec![3, 4, 5, 6]);
    assert_eq!(deserialize::<Vec<u8>>(&serialize(&b)), Ok(b));
}

#[test]
fn generic_deserialize_errors() {
    assert_eq!(deserialize::<u32>(&[1, 2, 3]), Err(DecodeError::UnexpectedEnd));
    assert_eq!(deserialize::<u32>(&[1, 2, 3, 4, 5]), Err(DecodeError::TrailingBytes));
    assert_eq!(deserialize_partial::<u32>(&[1, 0, 0, 0, 5]), Ok((1, 4)));
    assert_eq!(deserialize::<Vec<u8>>(&[2, 1]), Err(DecodeError::LengthTooLong));
}

#[test]
fn trait_methods_stream() {
    let mut out = Vec::new();
    assert_eq!(7u32.consensus_encode(&mut out), 4);
    assert_eq!(vec![1u8].consensus_encode(&mut out), 2);
    assert_eq!(9u64.consensus_encode(&mut out), 8);
    let (a, p) = u32::consensus_decode(&out, 0).unwrap();
    let (b, q) = <Vec<u8>>::consensus_decode(&out, p).unwrap();
    let (c, r) = u64::consensus_decode(&out, q).unwrap();
    assert_eq!((a, b, c, r), (7, vec![1], 9, 14));
}
