use attestation::attestation_data::AttestationData;
use attestation::codec::{
    decode_bytes, decode_fixed, decode_length, decode_u64, encode_bytes, encode_length,
    encode_u64, DecodeError,
};
use attestation::merkle::Hash256;
use attestation::signature::{AggregatePublicKey, AggregateSignature};

#[test]
fn integers_are_little_endian() {
    assert_eq!(encode_u64(0x0102030405060708), vec![8, 7, 6, 5, 4, 3, 2, 1]);
    assert_eq!(encode_u64(0), vec![0; 8]);
    assert_eq!(encode_u64(1), vec![1, 0, 0, 0, 0, 0, 0, 0]);
    assert_eq!(encode_u64(u64::MAX), vec![0xff; 8]);
}

#[test]
fn integers_decode_from_eight_bytes() {
    assert_eq!(decode_u64(&[8, 7, 6, 5, 4, 3, 2, 1], 0), Ok((0x0102030405060708, 8)));
    assert_eq!(decode_u64(&[9, 9, 8, 7, 6, 5, 4, 3, 2, 1, 9], 2), Ok((0x0102030405060708, 10)));
    assert_eq!(decode_u64(&[0xff; 8], 0), Ok((u64::MAX, 8)));
    for value in [0u64, 1, 255, 256, 0xdead_beef, u64::MAX - 1] {
        assert_eq!(decode_u64(&encode_u64(value), 0), Ok((value, 8)));
    }
}

#[test]
fn integer_past_the_end_is_malformed() {
    assert_eq!(decode_u64(&[1, 2, 3, 4, 5, 6, 7], 0), Err(DecodeError::Malformed));
    assert_eq!(decode_u64(&[1, 2, 3, 4, 5, 6, 7, 8], 1), Err(DecodeError::Malformed));
    assert_eq!(decode_u64(&[], 0), Err(DecodeError::Malformed));
    assert_eq!(decode_u64(&[0; 8], 9), Err(DecodeError::Malformed));
    assert_eq!(decode_u64(&[0; 8], usize::MAX), Err(DecodeError::Malformed));
}

#[test]
fn lengths_take_four_bytes() {
    assert_eq!(encode_length(0), vec![0, 0, 0, 0]);
    assert_eq!(encode_length(1), vec![1, 0, 0, 0]);
    assert_eq!(encode_length(0x01020304), vec![4, 3, 2, 1]);
    assert_eq!(encode_length(0xffff_ffff), vec![0xff; 4]);
    assert_eq!(decode_length(&[4, 3, 2, 1], 0), Ok((0x01020304, 4)));
    assert_eq!(decode_length(&[7, 4, 3, 2, 1], 1), Ok((0x01020304, 5)));
    assert_eq!(decode_length(&[4, 3, 2], 0), Err(DecodeError::Malformed));
    assert_eq!(decode_length(&[4, 3, 2, 1], 1), Err(DecodeError::Malformed));
}

#[test]
fn raw_bytes_are_read_as_they_are() {
    assert_eq!(decode_fixed(&[1, 2, 3, 4, 5], 1, 3), Ok((vec![2, 3, 4], 4)));
    assert_eq!(decode_fixed(&[1, 2, 3, 4, 5], 5, 0), Ok((vec![], 5)));
    assert_eq!(decode_fixed(&[1, 2, 3, 4, 5], 3, 3), Err(DecodeError::Malformed));
    assert_eq!(decode_fixed(&[1, 2, 3, 4, 5], 6, 0), Err(DecodeError::Malformed));
    assert_eq!(decode_fixed(&[1, 2, 3, 4, 5], 1, usize::MAX), Err(DecodeError::Malformed));
}

#[test]
fn byte_strings_stand_behind_their_length() {
    assert_eq!(encode_bytes(&[]), vec![0, 0, 0, 0]);
    assert_eq!(encode_bytes(&[0xaa, 0xbb, 0xcc]), vec![3, 0, 0, 0, 0xaa, 0xbb, 0xcc]);
    let long = vec![5u8; 300];
    let encoded = encode_bytes(&long);
    assert_eq!(&encoded[..4], &[44, 1, 0, 0]);
    assert_eq!(&encoded[4..], &long[..]);
    assert_eq!(decode_bytes(&encoded, 0), Ok((long, 304)));
    assert_eq!(decode_bytes(&[9, 3, 0, 0, 0, 0xaa, 0xbb, 0xcc, 9], 1), Ok((vec![0xaa, 0xbb, 0xcc], 8)));
}

#[test]
fn byte_string_longer_than_the_buffer_has_an_invalid_length() {
    assert_eq!(decode_bytes(&[3, 0, 0, 0, 0xaa, 0xbb], 0), Err(DecodeError::InvalidLength));
    assert_eq!(decode_bytes(&[1, 0, 0, 0], 0), Err(DecodeError::InvalidLength));
    assert_eq!(decode_bytes(&[0xff, 0xff, 0xff, 0xff, 0], 0), Err(DecodeError::InvalidLength));
    assert_eq!(decode_bytes(&[3, 0, 0], 0), Err(DecodeError::Malformed));
    assert_eq!(decode_bytes(&[], 0), Err(DecodeError::Malformed));
}

fn payload() -> AttestationData {
    AttestationData {
        slot: 0x0102,
        shard: 0x0304,
        beacon_block_root: Hash256 { bytes: [1; 32] },
        epoch_boundary_root: Hash256 { bytes: [2; 32] },
        shard_block_root: Hash256 { bytes: [3; 32] },
        latest_crosslink_root: Hash256 { bytes: [4; 32] },
        justified_epoch: 0x0506,
        justified_block_root: Hash256 { bytes: [5; 32] },
    }
}

#[test]
fn payload_encodes_its_fields_in_order() {
    let bytes = payload().encode();
    assert_eq!(bytes.len(), 184);
    assert_eq!(&bytes[0..8], &[2, 1, 0, 0, 0, 0, 0, 0]);
    assert_eq!(&bytes[8..16], &[4, 3, 0, 0, 0, 0, 0, 0]);
    assert_eq!(&bytes[16..48], &[1; 32]);
    assert_eq!(&bytes[48..80], &[2; 32]);
    assert_eq!(&bytes[80..112], &[3; 32]);
    assert_eq!(&bytes[112..144], &[4; 32]);
    assert_eq!(&bytes[144..152], &[6, 5, 0, 0, 0, 0, 0, 0]);
    assert_eq!(&bytes[152..184], &[5; 32]);
}

#[test]
fn payload_round_trip() {
    let bytes = payload().encode();
    assert_eq!(AttestationData::decode(&bytes, 0), Ok((payload(), 184)));
    let mut shifted = vec![0xee; 5];
    shifted.extend_from_slice(&bytes);
    shifted.push(0xee);
    assert_eq!(AttestationData::decode(&shifted, 5), Ok((payload(), 189)));
}

#[test]
fn cut_payload_is_malformed() {
    let bytes = payload().encode();
    for cut in 0..184 {
        assert_eq!(AttestationData::decode(&bytes[..cut], 0), Err(DecodeError::Malformed));
    }
    assert_eq!(AttestationData::decode(&bytes, 1), Err(DecodeError::Malformed));
    assert_eq!(AttestationData::decode(&bytes, usize::MAX), Err(DecodeError::Malformed));
}

#[test]
fn digest_decodes_from_32_bytes() {
    let mut buffer = vec![0xee];
    buffer.extend_from_slice(&[7; 32]);
    assert_eq!(Hash256::decode(&buffer, 1), Ok((Hash256 { bytes: [7; 32] }, 33)));
    assert_eq!(Hash256::decode(&buffer, 2), Err(DecodeError::Malformed));
}

#[test]
fn signature_is_a_byte_string_of_variable_length() {
    let signature = AggregateSignature::from_bytes(&[0xab; 96]).unwrap();
    assert_eq!(signature.to_bytes(), vec![0xab; 96]);
    let encoded = signature.encode();
    assert_eq!(&encoded[..4], &[96, 0, 0, 0]);
    assert_eq!(&encoded[4..], &[0xab; 96]);
    assert_eq!(AggregateSignature::decode(&encoded, 0), Ok((signature.clone(), 100)));
    assert_eq!(AggregateSignature::decode(&encoded[..99], 0), Err(DecodeError::InvalidLength));
    assert_eq!(AggregateSignature::decode(&encoded[..3], 0), Err(DecodeError::Malformed));
    assert_eq!(signature.clone(), signature);
    let empty = AggregateSignature::from_bytes(&[]).unwrap();
    assert_eq!(empty.encode(), vec![0, 0, 0, 0]);
}

#[test]
fn public_key_holds_its_bytes() {
    let key = AggregatePublicKey::from_bytes(&[0xcd; 48]);
    assert_eq!(key.to_bytes(), vec![0xcd; 48]);
    assert_eq!(key.clone(), key);
    assert_ne!(key, AggregatePublicKey::from_bytes(&[0xcd; 47]));
}
