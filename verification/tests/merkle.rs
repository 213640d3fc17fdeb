use attestation::attestation::Attestation;
use attestation::attestation_data::AttestationData;
use attestation::bitfield::Bitfield;
use attestation::merkle::{
    hash_concat, hash_tree_root_bool, hash_tree_root_bytes, hash_tree_root_u64, merkleize,
    mix_in_length, pack, Hash256,
};
use attestation::signature::AggregateSignature;

fn digest(hex: &str) -> Hash256 {
    assert_eq!(hex.len(), 64);
    let mut bytes = [0u8; 32];
    for i in 0..32 {
        bytes[i] = u8::from_str_radix(&hex[2 * i..2 * i + 2], 16).unwrap();
    }
    Hash256 { bytes }
}

fn filled(byte: u8) -> Hash256 {
    Hash256 { bytes: [byte; 32] }
}

fn sample_data() -> AttestationData {
    AttestationData {
        slot: 3,
        shard: 7,
        beacon_block_root: filled(0x11),
        epoch_boundary_root: filled(0x22),
        shard_block_root: filled(0x33),
        latest_crosslink_root: filled(0x44),
        justified_epoch: 9,
        justified_block_root: filled(0x55),
    }
}

fn sample_record() -> Attestation {
    let aggregation =
        [true, false, true, true, false, false, false, false, true, true];
    let signature: Vec<u8> = (0u8..96).collect();
    Attestation {
        aggregation_bitfield: Bitfield::from_bits(&aggregation).unwrap(),
        data: sample_data(),
        custody_bitfield: Bitfield::new(10).unwrap(),
        aggregate_signature: AggregateSignature::from_bytes(&signature).unwrap(),
    }
}

#[test]
fn parent_of_two_zero_chunks() {
    let zero = Hash256::zero();
    assert_eq!(zero.bytes, [0u8; 32]);
    assert_eq!(
        hash_concat(&zero, &zero),
        digest("f5a5fd42d16a20302798ef6ed309979b43003d2320d9f0e8ea9831a92759fb4b")
    );
}

#[test]
fn parent_depends_on_the_order() {
    assert_eq!(
        hash_concat(&filled(1), &filled(2)),
        digest("f818afd37a6dc3bc92fb44731011277006db4efa6e9023cd7468c02335d22a4d")
    );
    assert_ne!(hash_concat(&filled(1), &filled(2)), hash_concat(&filled(2), &filled(1)));
}

#[test]
fn root_of_no_chunk_is_the_zero_chunk() {
    assert_eq!(merkleize(vec![]), Hash256::zero());
}

#[test]
fn root_of_one_chunk_is_the_chunk() {
    assert_eq!(merkleize(vec![filled(9)]), filled(9));
}

#[test]
fn root_of_two_chunks() {
    assert_eq!(
        merkleize(vec![filled(1), filled(2)]),
        digest("f818afd37a6dc3bc92fb44731011277006db4efa6e9023cd7468c02335d22a4d")
    );
}

#[test]
fn root_of_three_chunks_pads_with_a_zero_chunk() {
    let expected = digest("d6cfa0d1046a0f4c1f9a6dc57afb0f4577680c106a48cf04125e7ba8606da219");
    assert_eq!(merkleize(vec![filled(1), filled(2), filled(3)]), expected);
    assert_eq!(merkleize(vec![filled(1), filled(2), filled(3), Hash256::zero()]), expected);
}

#[test]
fn root_of_five_chunks_pads_to_eight() {
    let chunks: Vec<Hash256> = (1u8..=5).map(filled).collect();
    let expected = digest("6c1cfb22738edf2a397893ab3bd49b601f5dfc69439772b613f6fad2889ebbd6");
    assert_eq!(merkleize(chunks.clone()), expected);
    let mut padded = chunks;
    padded.resize(8, Hash256::zero());
    assert_eq!(merkleize(padded), expected);
}

#[test]
fn root_of_zero_chunks_is_the_zero_subtree() {
    assert_eq!(
        merkleize(vec![Hash256::zero(); 3]),
        digest("db56114e00fdd4c1f85c892bf35ac9a89289aaecb1ebd0a96cde606a748b5d71")
    );
}

#[test]
fn pack_cuts_into_chunks_and_fills_the_last_with_zeros() {
    assert_eq!(pack(&[]), vec![]);
    let bytes: Vec<u8> = (0u8..33).collect();
    let chunks = pack(&bytes);
    assert_eq!(chunks.len(), 2);
    assert_eq!(&chunks[0].bytes[..], &bytes[..32]);
    let mut last = [0u8; 32];
    last[0] = 32;
    assert_eq!(chunks[1].bytes, last);
    assert_eq!(pack(&[7u8; 32]), vec![filled(7)]);
    assert_eq!(pack(&[7u8; 64]), vec![filled(7), filled(7)]);
}

#[test]
fn length_is_mixed_in_as_32_bytes() {
    assert_eq!(
        mix_in_length(&Hash256::zero(), 0),
        digest("f5a5fd42d16a20302798ef6ed309979b43003d2320d9f0e8ea9831a92759fb4b")
    );
    assert_eq!(
        mix_in_length(&filled(1), 0x0102030405060708),
        digest("5540bd4b1ea7484686707f0f9b4728b46ddb8c5e1ef70541292a090013a1aa68")
    );
}

#[test]
fn root_of_an_integer_is_its_bytes() {
    let mut expected = [0u8; 32];
    expected[..8].copy_from_slice(&[8, 7, 6, 5, 4, 3, 2, 1]);
    assert_eq!(hash_tree_root_u64(0x0102030405060708).bytes, expected);
    assert_eq!(hash_tree_root_u64(0), Hash256::zero());
}

#[test]
fn root_of_a_boolean_is_one_or_zero() {
    let mut expected = [0u8; 32];
    assert_eq!(hash_tree_root_bool(false).bytes, expected);
    expected[0] = 1;
    assert_eq!(hash_tree_root_bool(true).bytes, expected);
}

#[test]
fn root_of_a_byte_string() {
    assert_eq!(
        hash_tree_root_bytes(b"hello, world!"),
        digest("af3ce8bcd2f066f02e0744df4993ef979fe92e14790fcef078a6fa5f0083a8cb")
    );
    assert_eq!(
        hash_tree_root_bytes(&[]),
        digest("f5a5fd42d16a20302798ef6ed309979b43003d2320d9f0e8ea9831a92759fb4b")
    );
    let bytes: Vec<u8> = (0u8..33).collect();
    assert_eq!(
        hash_tree_root_bytes(&bytes),
        digest("635625879e3d12286181b0fc1449cc79807f77b1aeacf4185e51f6eeba6ef080")
    );
}

#[test]
fn root_of_a_digest_is_the_digest() {
    assert_eq!(filled(0xab).hash_tree_root(), filled(0xab));
}

#[test]
fn digest_from_slice_wants_32_bytes() {
    assert_eq!(Hash256::from_slice(&[5u8; 32]), Some(filled(5)));
    assert_eq!(Hash256::from_slice(&[5u8; 31]), None);
    assert_eq!(Hash256::from_slice(&[5u8; 33]), None);
    assert_eq!(Hash256::from_slice(&[]), None);
    assert_eq!(filled(5).to_vec(), vec![5u8; 32]);
}

#[test]
fn root_of_a_bitfield_mixes_in_the_bit_count() {
    let three = Bitfield::from_bits(&[false, true, false]).unwrap();
    assert_eq!(
        three.hash_tree_root(),
        digest("0094579cfc7b716038d416a311465309bea202baa922b224a7b08f01599642fb")
    );
    let eight = Bitfield::from_bytes(&[0b0000_0010]).unwrap();
    assert_eq!(eight.to_bytes(), three.to_bytes());
    assert_ne!(eight.hash_tree_root(), three.hash_tree_root());
    assert_eq!(
        Bitfield::new(0).unwrap().hash_tree_root(),
        digest("f5a5fd42d16a20302798ef6ed309979b43003d2320d9f0e8ea9831a92759fb4b")
    );
    let bits: Vec<bool> = (0..300).map(|i| i % 3 == 0).collect();
    assert_eq!(
        Bitfield::from_bits(&bits).unwrap().hash_tree_root(),
        digest("eb86f93b5aff2b8070094b27801923ac619e30595d2cd7bff78780653cb3c033")
    );
}

#[test]
fn root_of_a_payload() {
    assert_eq!(
        sample_data().hash_tree_root(),
        digest("dde339abcb289b0beabd04117b0b494849607137110bbb402feab32166032f32")
    );
}

#[test]
fn signable_message_of_a_payload() {
    assert_eq!(
        sample_data().signable_message(true),
        digest("7b744047ec997a8662bee299a36e24c8098d0a4585a55099f6103f3c4c6cf56d").to_vec()
    );
    assert_eq!(
        sample_data().signable_message(false),
        digest("dca47c263cdcb62d6eb9f4c26a931f2919cd7cf964c6bfc37cfe1a5b269b3d04").to_vec()
    );
}

#[test]
fn root_of_a_record() {
    let expected = digest("58530f04724a43ec490d9311a261aa06e2b2b63194be11f64e5b69628284478c");
    assert_eq!(sample_record().canonical_root(), expected);
    assert_eq!(sample_record().hash_tree_root(), expected);
    assert_eq!(sample_record().canonical_root().to_vec().len(), 32);
}

#[test]
fn root_changes_with_every_field() {
    let base = sample_record().canonical_root();
    let mut changed = sample_record();
    changed.data.justified_epoch = 10;
    assert_ne!(changed.canonical_root(), base);
    let mut changed = sample_record();
    changed.custody_bitfield = Bitfield::new(11).unwrap();
    assert_ne!(changed.canonical_root(), base);
    let mut changed = sample_record();
    changed.aggregation_bitfield = Bitfield::new(10).unwrap();
    assert_ne!(changed.canonical_root(), base);
    let mut changed = sample_record();
    changed.aggregate_signature = AggregateSignature::from_bytes(&[0u8; 96]).unwrap();
    assert_ne!(changed.canonical_root(), base);
}

#[test]
fn encoding_of_a_record_byte_for_byte() {
    let mut expected: Vec<u8> = vec![2, 0, 0, 0, 0x0d, 0x03];
    expected.extend_from_slice(&[3, 0, 0, 0, 0, 0, 0, 0]);
    expected.extend_from_slice(&[7, 0, 0, 0, 0, 0, 0, 0]);
    expected.extend_from_slice(&[0x11; 32]);
    expected.extend_from_slice(&[0x22; 32]);
    expected.extend_from_slice(&[0x33; 32]);
    expected.extend_from_slice(&[0x44; 32]);
    expected.extend_from_slice(&[9, 0, 0, 0, 0, 0, 0, 0]);
    expected.extend_from_slice(&[0x55; 32]);
    expected.extend_from_slice(&[2, 0, 0, 0, 0, 0]);
    expected.extend_from_slice(&[96, 0, 0, 0]);
    expected.extend((0u8..96).collect::<Vec<u8>>());
    assert_eq!(expected.len(), 296);
    assert_eq!(sample_record().encode(), expected);
    let decoded = Attestation::decode(&expected).unwrap();
    assert_eq!(decoded.data, sample_data());
    assert_eq!(decoded.aggregation_bitfield.len(), 16);
    assert_eq!(decoded.aggregation_bitfield.to_bytes(), vec![0x0d, 0x03]);
    assert_eq!(decoded.aggregate_signature, sample_record().aggregate_signature);
}
