//! The payload that an attestation signs: slot, shard and the block roots it vouches for.

use crate::codec::{decode_u64, encode_u64, le_bytes, le_value, DecodeError};
use crate::merkle::{
    bool_root, hash_tree_root_bool, hash_tree_root_u64, merkle_root, merkleize, u64_root, Hash256,
};
use vstd::prelude::*;

verus! {

/// Number of bytes of an encoded payload.
pub const DATA_BYTES: usize = 184;

/// The payload of an attestation. All of its fields have a fixed size.
#[derive(Debug, Clone, Copy, PartialEq, Eq)]
pub struct AttestationData {
    pub slot: u64,
    pub shard: u64,
    pub beacon_block_root: Hash256,
    pub epoch_boundary_root: Hash256,
    pub shard_block_root: Hash256,
    pub latest_crosslink_root: Hash256,
    pub justified_epoch: u64,
    pub justified_block_root: Hash256,
}

/// The payload as a mathematical value: each root as the sequence of its bytes.
pub struct AttestationDataView {
    pub slot: u64,
    pub shard: u64,
    pub beacon_block_root: Seq<u8>,
    pub epoch_boundary_root: Seq<u8>,
    pub shard_block_root: Seq<u8>,
    pub latest_crosslink_root: Seq<u8>,
    pub justified_epoch: u64,
    pub justified_block_root: Seq<u8>,
}

impl View for AttestationData {
    type V = AttestationDataView;

    open spec fn view(&self) -> AttestationDataView {
        AttestationDataView {
            slot: self.slot,
            shard: self.shard,
            beacon_block_root: self.beacon_block_root@,
            epoch_boundary_root: self.epoch_boundary_root@,
            shard_block_root: self.shard_block_root@,
            latest_crosslink_root: self.latest_crosslink_root@,
            justified_epoch: self.justified_epoch,
            justified_block_root: self.justified_block_root@,
        }
    }
}

/// Whether every root of the payload has 32 bytes, as the view of a payload has.
pub open spec fn valid_data(data: AttestationDataView) -> bool {
    &&& data.beacon_block_root.len() == 32
    &&& data.epoch_boundary_root.len() == 32
    &&& data.shard_block_root.len() == 32
    &&& data.latest_crosslink_root.len() == 32
    &&& data.justified_block_root.len() == 32
}

/// The encoding of a payload: its fields in order, each at its fixed width.
pub open spec fn spec_encode_data(data: AttestationDataView) -> Seq<u8> {
    le_bytes(data.slot as nat, 8) + le_bytes(data.shard as nat, 8) + data.beacon_block_root
        + data.epoch_boundary_root + data.shard_block_root + data.latest_crosslink_root + le_bytes(
        data.justified_epoch as nat,
        8,
    ) + data.justified_block_root
}

/// What reading a payload at `offset` yields: its fields, and the offset behind it.
pub open spec fn spec_decode_data(bytes: Seq<u8>, offset: int) -> Result<
    (AttestationDataView, int),
    DecodeError,
> {
    if 0 <= offset && offset + 184 <= bytes.len() {
        Ok(
            (
                AttestationDataView {
                    slot: le_value(bytes.subrange(offset, offset + 8)) as u64,
                    shard: le_value(bytes.subrange(offset + 8, offset + 16)) as u64,
                    beacon_block_root: bytes.subrange(offset + 16, offset + 48),
                    epoch_boundary_root: bytes.subrange(offset + 48, offset + 80),
                    shard_block_root: bytes.subrange(offset + 80, offset + 112),
                    latest_crosslink_root: bytes.subrange(offset + 112, offset + 144),
                    justified_epoch: le_value(bytes.subrange(offset + 144, offset + 152)) as u64,
                    justified_block_root: bytes.subrange(offset + 152, offset + 184),
                },
                offset + 184,
            ),
        )
    } else {
        Err(DecodeError::Malformed)
    }
}

/// The hash tree root of a payload: the root of the list of its fields' roots.
pub open spec fn data_root(data: AttestationDataView) -> Seq<u8> {
    merkle_root(
        seq![
            u64_root(data.slot),
            u64_root(data.shard),
            data.beacon_block_root,
            data.epoch_boundary_root,
            data.shard_block_root,
            data.latest_crosslink_root,
            u64_root(data.justified_epoch),
            data.justified_block_root,
        ],
    )
}

/// The chunk list that is hashed into the message to sign: the root of the payload, then the
/// root of the custody bit.
pub open spec fn signable_chunks(data: AttestationDataView, custody_bit: bool) -> Seq<Seq<u8>> {
    seq![data_root(data), bool_root(custody_bit)]
}

/// The message that a signature covers: the hash tree root of the payload together with the
/// custody bit.
pub open spec fn spec_signable_message(data: AttestationDataView, custody_bit: bool) -> Seq<u8> {
    merkle_root(signable_chunks(data, custody_bit))
}

/// A payload is read back from where its encoding stands.
pub proof fn lemma_decode_data_of_encoded(bytes: Seq<u8>, offset: int, data: AttestationDataView)
    requires
        valid_data(data),
        0 <= offset,
        offset + 184 <= bytes.len(),
        bytes.subrange(offset, offset + 184) == spec_encode_data(data),
    ensures
        spec_decode_data(bytes, offset) == Ok::<(AttestationDataView, int), DecodeError>(
            (data, offset + 184),
        ),
{
    let encoded = spec_encode_data(data);
    let window = bytes.subrange(offset, offset + 184);
    crate::codec::lemma_le_bytes_len(data.slot as nat, 8);
    crate::codec::lemma_le_bytes_len(data.shard as nat, 8);
    crate::codec::lemma_le_bytes_len(data.justified_epoch as nat, 8);
    assert(encoded.len() == 184);
    assert(bytes.subrange(offset, offset + 8) =~= window.subrange(0, 8));
    assert(encoded.subrange(0, 8) =~= le_bytes(data.slot as nat, 8));
    assert(bytes.subrange(offset + 8, offset + 16) =~= window.subrange(8, 16));
    assert(encoded.subrange(8, 16) =~= le_bytes(data.shard as nat, 8));
    assert(bytes.subrange(offset + 16, offset + 48) =~= window.subrange(16, 48));
    assert(encoded.subrange(16, 48) =~= data.beacon_block_root);
    assert(bytes.subrange(offset + 48, offset + 80) =~= window.subrange(48, 80));
    assert(encoded.subrange(48, 80) =~= data.epoch_boundary_root);
    assert(bytes.subrange(offset + 80, offset + 112) =~= window.subrange(80, 112));
    assert(encoded.subrange(80, 112) =~= data.shard_block_root);
    assert(bytes.subrange(offset + 112, offset + 144) =~= window.subrange(112, 144));
    assert(encoded.subrange(112, 144) =~= data.latest_crosslink_root);
    assert(bytes.subrange(offset + 144, offset + 152) =~= window.subrange(144, 152));
    assert(encoded.subrange(144, 152) =~= le_bytes(data.justified_epoch as nat, 8));
    assert(bytes.subrange(offset + 152, offset + 184) =~= window.subrange(152, 184));
    assert(encoded.subrange(152, 184) =~= data.justified_block_root);
    reveal_with_fuel(crate::codec::byte_range, 9);
    crate::codec::lemma_le_value_of_bytes(data.slot as nat, 8);
    crate::codec::lemma_le_value_of_bytes(data.shard as nat, 8);
    crate::codec::lemma_le_value_of_bytes(data.justified_epoch as nat, 8);
}

/// Cutting a buffer behind an encoded payload leaves the payload readable; cutting it earlier
/// leaves an error.
pub proof fn lemma_decode_data_of_prefix(bytes: Seq<u8>, offset: int, cut: int)
    requires
        0 <= cut <= bytes.len(),
        spec_decode_data(bytes, offset) is Ok,
    ensures
        cut >= offset + 184 ==> spec_decode_data(bytes.take(cut), offset) == spec_decode_data(
            bytes,
            offset,
        ),
        cut < offset + 184 ==> spec_decode_data(bytes.take(cut), offset) is Err,
{
    if cut >= offset + 184 {
        let short = bytes.take(cut);
        assert(short.subrange(offset, offset + 8) =~= bytes.subrange(offset, offset + 8));
        assert(short.subrange(offset + 8, offset + 16) =~= bytes.subrange(offset + 8, offset + 16));
        assert(short.subrange(offset + 16, offset + 48) =~= bytes.subrange(
            offset + 16,
            offset + 48,
        ));
        assert(short.subrange(offset + 48, offset + 80) =~= bytes.subrange(
            offset + 48,
            offset + 80,
        ));
        assert(short.subrange(offset + 80, offset + 112) =~= bytes.subrange(
            offset + 80,
            offset + 112,
        ));
        assert(short.subrange(offset + 112, offset + 144) =~= bytes.subrange(
            offset + 112,
            offset + 144,
        ));
        assert(short.subrange(offset + 144, offset + 152) =~= bytes.subrange(
            offset + 144,
            offset + 152,
        ));
        assert(short.subrange(offset + 152, offset + 184) =~= bytes.subrange(
            offset + 152,
            offset + 184,
        ));
    }
}

/// The message to sign is the digest of 64 bytes: the root of the payload, then the chunk of
/// the custody bit.
pub proof fn lemma_signable_message(data: AttestationDataView, custody_bit: bool)
    ensures
        spec_signable_message(data, custody_bit) == crate::merkle::sha256(
            data_root(data) + bool_root(custody_bit),
        )@,
        spec_signable_message(data, custody_bit).len() == 32,
{
    crate::merkle::lemma_two_chunk_root(data_root(data), bool_root(custody_bit));
}

/// The messages for the two custody bits are digests of different byte strings. Whether the
/// digests differ too is a matter of the hash function.
pub proof fn lemma_custody_bit_changes_hashed_bytes(data: AttestationDataView)
    ensures
        data_root(data) + bool_root(true) != data_root(data) + bool_root(false),
{
    crate::merkle::lemma_bool_root(true);
    crate::merkle::lemma_bool_root(false);
    let with_bit = data_root(data) + bool_root(true);
    let without_bit = data_root(data) + bool_root(false);
    let at = data_root(data).len() as int;
    assert(with_bit[at] == 1u8);
    assert(without_bit[at] == 0u8);
}

impl AttestationData {
    /// The encoding: 184 bytes.
    pub fn encode(&self) -> (bytes: Vec<u8>)
        ensures
            bytes@ == spec_encode_data(self@),
    {
        let mut bytes = encode_u64(self.slot);
        let mut shard = encode_u64(self.shard);
        bytes.append(&mut shard);
        let mut root = self.beacon_block_root.to_vec();
        bytes.append(&mut root);
        let mut root = self.epoch_boundary_root.to_vec();
        bytes.append(&mut root);
        let mut root = self.shard_block_root.to_vec();
        bytes.append(&mut root);
        let mut root = self.latest_crosslink_root.to_vec();
        bytes.append(&mut root);
        let mut epoch = encode_u64(self.justified_epoch);
        bytes.append(&mut epoch);
        let mut root = self.justified_block_root.to_vec();
        bytes.append(&mut root);
        bytes
    }

    /// Reads a payload at `offset`.
    pub fn decode(bytes: &[u8], offset: usize) -> (r: Result<(AttestationData, usize), DecodeError>)
        ensures
            match r {
                Ok((data, next)) => spec_decode_data(bytes@, offset as int) == Ok::<
                    (AttestationDataView, int),
                    DecodeError,
                >((data@, next as int)),
                Err(e) => spec_decode_data(bytes@, offset as int) == Err::<
                    (AttestationDataView, int),
                    DecodeError,
                >(e),
            },
    {
        if offset > bytes.len() || bytes.len() - offset < DATA_BYTES {
            return Err(DecodeError::Malformed);
        }
        let (slot, next) = decode_u64(bytes, offset)?;
        let (shard, next) = decode_u64(bytes, next)?;
        let (beacon_block_root, next) = Hash256::decode(bytes, next)?;
        let (epoch_boundary_root, next) = Hash256::decode(bytes, next)?;
        let (shard_block_root, next) = Hash256::decode(bytes, next)?;
        let (latest_crosslink_root, next) = Hash256::decode(bytes, next)?;
        let (justified_epoch, next) = decode_u64(bytes, next)?;
        let (justified_block_root, next) = Hash256::decode(bytes, next)?;
        Ok(
            (
                AttestationData {
                    slot,
                    shard,
                    beacon_block_root,
                    epoch_boundary_root,
                    shard_block_root,
                    latest_crosslink_root,
                    justified_epoch,
                    justified_block_root,
                },
                next,
            ),
        )
    }

    /// The hash tree root.
    pub fn hash_tree_root(&self) -> (root: Hash256)
        ensures
            root@ == data_root(self@),
    {
        let mut chunks: Vec<Hash256> = Vec::new();
        chunks.push(hash_tree_root_u64(self.slot));
        chunks.push(hash_tree_root_u64(self.shard));
        chunks.push(self.beacon_block_root);
        chunks.push(self.epoch_boundary_root);
        chunks.push(self.shard_block_root);
        chunks.push(self.latest_crosslink_root);
        chunks.push(hash_tree_root_u64(self.justified_epoch));
        chunks.push(self.justified_block_root);
        assert(crate::merkle::chunk_views(chunks@) =~= seq![
            u64_root(self.slot),
            u64_root(self.shard),
            self.beacon_block_root@,
            self.epoch_boundary_root@,
            self.shard_block_root@,
            self.latest_crosslink_root@,
            u64_root(self.justified_epoch),
            self.justified_block_root@,
        ]);
        merkleize(chunks)
    }

    /// The message that a signature on this payload covers, for the given custody bit.
    pub fn signable_message(&self, custody_bit: bool) -> (message: Vec<u8>)
        ensures
            message@ == spec_signable_message(self@, custody_bit),
    {
        let mut chunks: Vec<Hash256> = Vec::new();
        chunks.push(self.hash_tree_root());
        chunks.push(hash_tree_root_bool(custody_bit));
        assert(crate::merkle::chunk_views(chunks@) =~= signable_chunks(self@, custody_bit));
        merkleize(chunks).to_vec()
    }
}

} // verus!
