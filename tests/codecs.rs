use buffin::tags::{match_tag, match_variant, tags_are_prefix_free};
use buffin::{DecodeError, FromBytes, ToBytes};
use std::ops::RangeInclusive;

fn encode<T: ToBytes>(v: &T) -> Vec<u8> {
    let mut region = vec![0u8; 256];
    let n = v.to_bytes(&mut region).unwrap();
    region.truncate(n);
    region
}

#[test]
fn integers_little_endian() {
    assert_eq!(encode(&0xABu8), vec![0xAB]);
    assert_eq!(encode(&0x1234u16), vec![0x34, 0x12]);
    assert_eq!(encode(&300u32), vec![0x2C, 0x01, 0x00, 0x00]);
    assert_eq!(
        encode(&0x0102030405060708u64),
        vec![8, 7, 6, 5, 4, 3, 2, 1]
    );
}

#[test]
fn u32_from_bytes_keeps_remainder() {
    let bytes = [0x2Cu8, 0x01, 0x00, 0x00, 9];
    let (rest, v) = u32::from_bytes(&bytes).unwrap();
    assert_eq!(v, 300);
    assert_eq!(rest, &[9]);
}

#[test]
fn round_trip_each_type() {
    let e = encode(&0xBEEFu16);
    assert_eq!(u16::from_bytes(&e).unwrap(), (&[] as &[u8], 0xBEEF));
    let e = encode(&u64::MAX);
    assert_eq!(u64::from_bytes(&e).unwrap(), (&[] as &[u8], u64::MAX));
    let s = String::from("héllo");
    let e = encode(&s);
    assert_eq!(e[..4], [6, 0, 0, 0]);
    assert_eq!(String::from_bytes(&e).unwrap(), (&[] as &[u8], s));
    let v = vec![Some(1u8), None, Some(3u8)];
    let e = encode(&v);
    assert_eq!(Vec::<Option<u8>>::from_bytes(&e).unwrap(), (&[] as &[u8], v));
    let r: RangeInclusive<u16> = 3..=900;
    let e = encode(&r);
    assert_eq!(e, vec![3, 0, 0x84, 0x03]);
    let (rest, back) = RangeInclusive::<u16>::from_bytes(&e).unwrap();
    assert!(rest.is_empty());
    assert_eq!(back, 3..=900);
}

#[test]
fn string_encoding_bytes() {
    assert_eq!(encode(&String::from("ab")), vec![2, 0, 0, 0, b'a', b'b']);
    assert_eq!(encode(&String::new()), vec![0, 0, 0, 0]);
}

#[test]
fn vec_encoding_bytes() {
    assert_eq!(encode(&vec![1u16, 2u16]), vec![2, 0, 0, 0, 1, 0, 2, 0]);
    assert_eq!(encode(&Vec::<u8>::new()), vec![0, 0, 0, 0]);
}

#[test]
fn every_truncation_is_incomplete() {
    let v = vec![String::from("ab"), String::from("")];
    let e = encode(&v);
    for k in 0..e.len() {
        assert_eq!(
            Vec::<String>::from_bytes(&e[..k]).err(),
            Some(DecodeError::Incomplete)
        );
    }
    let o = encode(&Some(70000u32));
    for k in 0..o.len() {
        assert_eq!(Option::<u32>::from_bytes(&o[..k]).err(), Some(DecodeError::Incomplete));
    }
}

#[test]
fn length_prefix_claiming_too_much_is_incomplete() {
    let bytes = [10u8, 0, 0, 0, b'a', b'b'];
    assert_eq!(String::from_bytes(&bytes).err(), Some(DecodeError::Incomplete));
}

#[test]
fn invalid_utf8_is_invalid() {
    let bytes = [2u8, 0, 0, 0, 0xFF, 0xFE];
    assert_eq!(String::from_bytes(&bytes).err(), Some(DecodeError::Invalid));
}

#[test]
fn bad_option_marker_is_invalid() {
    assert_eq!(Option::<u8>::from_bytes(&[b'?', 1]).err(), Some(DecodeError::Invalid));
}

#[test]
fn to_bytes_keeps_one_byte_free() {
    let mut region = [0u8; 4];
    assert_eq!(7u32.to_bytes(&mut region).err(), Some(buffin::EncodeError::BufferTooSmall));
    let mut region = [0u8; 5];
    assert_eq!(7u32.to_bytes(&mut region), Ok(4));
    assert_eq!(region, [7, 0, 0, 0, 0]);
}

#[test]
fn shorter_tag_declared_first_shadows_longer() {
    let tags = vec![b"A".to_vec(), b"AB".to_vec()];
    assert_eq!(match_variant(b"AB", 0, &tags), Ok((0, 1)));
    assert!(!tags_are_prefix_free(&tags));
}

#[test]
fn variant_tags_in_declared_order() {
    let tags = vec![b"Add".to_vec(), b"Sub".to_vec(), b"Neg".to_vec()];
    assert!(tags_are_prefix_free(&tags));
    assert_eq!(match_variant(b"Sub\x01", 0, &tags), Ok((1, 3)));
    assert_eq!(match_variant(b"xxNeg", 2, &tags), Ok((2, 5)));
    assert_eq!(match_variant(b"Su", 0, &tags), Err(DecodeError::Incomplete));
    assert_eq!(match_variant(b"Mul", 0, &tags), Err(DecodeError::Invalid));
}

#[test]
fn duplicate_tags_are_not_prefix_free() {
    let tags = vec![b"X".to_vec(), b"X".to_vec()];
    assert!(!tags_are_prefix_free(&tags));
    assert!(tags_are_prefix_free(&vec![b"X".to_vec()]));
}

#[test]
fn type_tag_matching() {
    assert_eq!(match_tag(b"PT\x05", 0, b"PT"), Ok(2));
    assert_eq!(match_tag(b"P", 0, b"PT"), Err(DecodeError::Incomplete));
    assert_eq!(match_tag(b"PX", 0, b"PT"), Err(DecodeError::Invalid));
}

#[test]
fn option_decode_keeps_exact_remainder() {
    let bytes = [b'+', 0x07, b'-'];
    let (rest, v) = Option::<u8>::from_bytes(&bytes).unwrap();
    assert_eq!(v, Some(7));
    assert_eq!(rest, &[b'-']);
    let (rest, v) = Option::<u8>::from_bytes(rest).unwrap();
    assert_eq!(v, None);
    assert!(rest.is_empty());
}

#[test]
fn string_decode_keeps_exact_remainder() {
    let bytes = [1u8, 0, 0, 0, b'z', 0xAA, 0xBB];
    let (rest, v) = String::from_bytes(&bytes).unwrap();
    assert_eq!(v, "z");
    assert_eq!(rest, &[0xAA, 0xBB]);
}

#[test]
fn failed_encode_leaves_buffer_unchanged() {
    let mut region = [0xEEu8; 6];
    assert_eq!(
        String::from("hello").to_bytes(&mut region),
        Err(buffin::EncodeError::BufferTooSmall)
    );
    assert_eq!(region, [0xEE; 6]);
    assert_eq!(vec![1u32, 2u32].to_bytes(&mut region), Err(buffin::EncodeError::BufferTooSmall));
    assert_eq!(region, [0xEE; 6]);
    assert_eq!(Some(7u64).to_bytes(&mut region), Err(buffin::EncodeError::BufferTooSmall));
    assert_eq!(region, [0xEE; 6]);
    let r: RangeInclusive<u32> = 1..=2;
    assert_eq!(r.to_bytes(&mut region), Err(buffin::EncodeError::BufferTooSmall));
    assert_eq!(region, [0xEE; 6]);
}

#[test]
fn references_and_slices_encode_like_owned_values() {
    let s = String::from("ab");
    assert_eq!(encode(&&s), encode(&s));
    let v = vec![3u16, 4u16];
    assert_eq!(encode(&&v), encode(&v));
    let slice: &[u16] = &v;
    assert_eq!(encode(&slice), vec![2, 0, 0, 0, 3, 0, 4, 0]);
}

#[test]
fn sequence_count_beyond_items_is_incomplete() {
    let bytes = [3u8, 0, 0, 0, 1, 2];
    assert_eq!(Vec::<u8>::from_bytes(&bytes).err(), Some(DecodeError::Incomplete));
}

#[test]
fn cut_variant_tag_is_incomplete() {
    let tags = vec![b"Add".to_vec(), b"Sub".to_vec()];
    assert_eq!(match_variant(b"Ad", 0, &tags), Err(DecodeError::Incomplete));
    assert_eq!(match_variant(b"", 0, &tags), Err(DecodeError::Incomplete));
}
