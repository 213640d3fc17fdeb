use attestation::attestation::Attestation;
use attestation::attestation_data::AttestationData;
use attestation::bitfield::Bitfield;
use attestation::codec::DecodeError;
use attestation::merkle::Hash256;
use attestation::signature::{AggregatePublicKey, AggregateSignature};
use rand::{RngCore, SeedableRng};
use rand_xorshift::XorShiftRng;

fn random_hash(rng: &mut XorShiftRng) -> Hash256 {
    let mut bytes = [0u8; 32];
    rng.fill_bytes(&mut bytes);
    Hash256 { bytes }
}

fn random_bitfield(rng: &mut XorShiftRng) -> Bitfield {
    let mut bytes = vec![0u8; 32];
    rng.fill_bytes(&mut bytes);
    Bitfield::from_bytes(&bytes).unwrap()
}

fn random_data(rng: &mut XorShiftRng) -> AttestationData {
    AttestationData {
        slot: rng.next_u64(),
        shard: rng.next_u64(),
        beacon_block_root: random_hash(rng),
        epoch_boundary_root: random_hash(rng),
        shard_block_root: random_hash(rng),
        latest_crosslink_root: random_hash(rng),
        justified_epoch: rng.next_u64(),
        justified_block_root: random_hash(rng),
    }
}

fn random_attestation(rng: &mut XorShiftRng) -> Attestation {
    let aggregation_bitfield = random_bitfield(rng);
    let data = random_data(rng);
    let custody_bitfield = random_bitfield(rng);
    let mut signature = vec![0u8; 96];
    rng.fill_bytes(&mut signature);
    Attestation {
        aggregation_bitfield,
        data,
        custody_bitfield,
        aggregate_signature: AggregateSignature::from_bytes(&signature).unwrap(),
    }
}

#[test]
pub fn test_ssz_round_trip() {
    let mut rng = XorShiftRng::from_seed([42; 16]);
    let record = random_attestation(&mut rng);

    let bytes = record.encode();
    let (decoded, _) = Attestation::decode_at(&bytes, 0).unwrap();

    assert_eq!(record, decoded);
}

#[test]
pub fn test_hash_tree_root_internal() {
    let mut rng = XorShiftRng::from_seed([42; 16]);
    let record = random_attestation(&mut rng);

    let result = record.hash_tree_root().to_vec();

    assert_eq!(result.len(), 32);
}

#[test]
fn encoding_has_the_fields_in_order() {
    let mut rng = XorShiftRng::from_seed([42; 16]);
    let record = random_attestation(&mut rng);
    let bytes = record.encode();
    assert_eq!(bytes.len(), 4 + 32 + 184 + 4 + 32 + 4 + 96);
    assert_eq!(&bytes[0..4], &[32, 0, 0, 0]);
    assert_eq!(&bytes[4..36], &record.aggregation_bitfield.to_bytes()[..]);
    assert_eq!(&bytes[36..44], &record.data.slot.to_le_bytes());
    assert_eq!(&bytes[220..224], &[32, 0, 0, 0]);
    assert_eq!(&bytes[256..260], &[96, 0, 0, 0]);
    assert_eq!(&bytes[260..], &record.aggregate_signature.to_bytes()[..]);
}

#[test]
fn encoding_and_root_are_repeatable() {
    let mut rng = XorShiftRng::from_seed([42; 16]);
    let record = random_attestation(&mut rng);
    let copy = record.clone();
    assert_eq!(record.encode(), copy.encode());
    assert_eq!(record.encode(), record.encode());
    assert_eq!(record.hash_tree_root(), copy.hash_tree_root());
    assert_eq!(record.canonical_root(), record.hash_tree_root());
}

#[test]
fn every_strict_prefix_fails_to_decode() {
    let mut rng = XorShiftRng::from_seed([7; 16]);
    let record = random_attestation(&mut rng);
    let bytes = record.encode();
    for cut in 0..bytes.len() {
        assert!(Attestation::decode(&bytes[..cut]).is_err(), "prefix of {} bytes", cut);
    }
    assert!(Attestation::decode(&bytes).is_ok());
}

#[test]
fn decode_names_the_field_that_is_cut() {
    let mut rng = XorShiftRng::from_seed([7; 16]);
    let record = random_attestation(&mut rng);
    let bytes = record.encode();
    assert_eq!(Attestation::decode(&bytes[..2]), Err(DecodeError::Malformed));
    assert_eq!(Attestation::decode(&bytes[..20]), Err(DecodeError::TooShort));
    assert_eq!(Attestation::decode(&bytes[..100]), Err(DecodeError::Malformed));
    assert_eq!(Attestation::decode(&bytes[..222]), Err(DecodeError::Malformed));
    assert_eq!(Attestation::decode(&bytes[..230]), Err(DecodeError::TooShort));
    assert_eq!(Attestation::decode(&bytes[..258]), Err(DecodeError::Malformed));
    assert_eq!(Attestation::decode(&bytes[..300]), Err(DecodeError::InvalidLength));
}

#[test]
fn decode_at_skips_what_stands_before_and_ignores_what_follows() {
    let mut rng = XorShiftRng::from_seed([9; 16]);
    let record = random_attestation(&mut rng);
    let mut bytes = vec![0xaa, 0xbb, 0xcc];
    bytes.extend_from_slice(&record.encode());
    let end = bytes.len();
    bytes.extend_from_slice(&[1, 2, 3, 4, 5]);
    let (decoded, next) = Attestation::decode_at(&bytes, 3).unwrap();
    assert_eq!(decoded, record);
    assert_eq!(next, end);
}

#[test]
fn bit_counts_that_are_no_multiple_of_eight_come_back_padded() {
    let mut rng = XorShiftRng::from_seed([11; 16]);
    let mut record = random_attestation(&mut rng);
    record.aggregation_bitfield = Bitfield::from_bits(&[false, true, false]).unwrap();
    let decoded = Attestation::decode(&record.encode()).unwrap();
    assert_eq!(decoded.aggregation_bitfield.len(), 8);
    assert_eq!(decoded.aggregation_bitfield.to_bytes(), vec![0b0000_0010]);
    let restored = Bitfield::from_packed(&decoded.aggregation_bitfield.to_bytes(), 3).unwrap();
    assert_eq!(restored, record.aggregation_bitfield);
    assert_eq!(decoded.data, record.data);
    assert_eq!(decoded.custody_bitfield, record.custody_bitfield);
    assert_eq!(decoded.aggregate_signature, record.aggregate_signature);
}

#[test]
fn signable_message_is_that_of_the_payload() {
    let mut rng = XorShiftRng::from_seed([13; 16]);
    let record = random_attestation(&mut rng);
    assert_eq!(record.signable_message(true), record.data.signable_message(true));
    assert_eq!(record.signable_message(false), record.data.signable_message(false));
    assert_ne!(record.signable_message(true), record.signable_message(false));
    assert_eq!(record.signable_message(true).len(), 32);
}

fn signed_attestation(seed: u8, custody_bit: bool, domain: u64) -> (Attestation, AggregatePublicKey) {
    let mut rng = XorShiftRng::from_seed([seed; 16]);
    let mut record = random_attestation(&mut rng);
    let secret = bls_on_arkworks::keygen(&vec![seed; 32]);
    let public = bls_on_arkworks::sk_to_pk(secret);
    let message = record.signable_message(custody_bit);
    let tag = domain.to_le_bytes().to_vec();
    let signature = bls_on_arkworks::sign(secret, &message, &tag).unwrap();
    record.aggregate_signature = AggregateSignature::from_bytes(&signature).unwrap();
    (record, AggregatePublicKey::from_bytes(&public))
}

#[test]
fn a_signed_record_verifies() {
    let (record, key) = signed_attestation(21, true, 5);
    assert!(record.verify_signature(&key, true, 5));
    let (record, key) = signed_attestation(22, false, 0);
    assert!(record.verify_signature(&key, false, 0));
}

#[test]
fn the_other_custody_bit_does_not_verify() {
    let (record, key) = signed_attestation(23, true, 5);
    assert!(!record.verify_signature(&key, false, 5));
    let (record, key) = signed_attestation(24, false, 5);
    assert!(!record.verify_signature(&key, true, 5));
}

#[test]
fn another_domain_does_not_verify() {
    let (record, key) = signed_attestation(25, true, 5);
    assert!(!record.verify_signature(&key, true, 6));
    assert!(!record.verify_signature(&key, true, 5 << 8));
}

#[test]
fn a_changed_payload_does_not_verify() {
    let (mut record, key) = signed_attestation(26, true, 5);
    record.data.slot ^= 1;
    assert!(!record.verify_signature(&key, true, 5));
}

#[test]
fn another_key_does_not_verify() {
    let (record, _) = signed_attestation(27, true, 5);
    let (_, other) = signed_attestation(28, true, 5);
    assert!(!record.verify_signature(&other, true, 5));
}

#[test]
fn malformed_signatures_and_keys_do_not_verify() {
    let (mut record, key) = signed_attestation(29, true, 5);
    let good = record.aggregate_signature.clone();
    record.aggregate_signature = AggregateSignature::from_bytes(&[]).unwrap();
    assert!(!record.verify_signature(&key, true, 5));
    record.aggregate_signature = AggregateSignature::from_bytes(&[0xff; 96]).unwrap();
    assert!(!record.verify_signature(&key, true, 5));
    record.aggregate_signature = AggregateSignature::from_bytes(&[1; 95]).unwrap();
    assert!(!record.verify_signature(&key, true, 5));
    record.aggregate_signature = good;
    assert!(!record.verify_signature(&AggregatePublicKey::from_bytes(&[]), true, 5));
    assert!(!record.verify_signature(&AggregatePublicKey::from_bytes(&[0xff; 48]), true, 5));
    assert!(record.verify_signature(&key, true, 5));
}
