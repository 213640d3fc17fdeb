//! The attestation record: two bitfields, a payload and an aggregate signature.

use crate::attestation_data::{
    data_root, spec_decode_data, spec_encode_data, spec_signable_message, valid_data,
    AttestationData, AttestationDataView,
};
use crate::bitfield::{
    bitfield_root, byte_aligned, packed_len, representable, spec_decode_bitfield,
    spec_encode_bitfield, Bitfield,
};
use crate::codec::{spec_decode_bytes, spec_encode_bytes, DecodeError, MAX_BODY_BYTES};
use crate::merkle::{bytes_root, chunk_views, merkle_root, merkleize, Hash256};
use crate::signature::{signature_valid, AggregatePublicKey, AggregateSignature};
use vstd::prelude::*;

verus! {

/// A vote of a committee: who took part, what they vouch for, their custody bits and their
/// aggregate signature.
#[derive(Debug, PartialEq)]
pub struct Attestation {
    pub aggregation_bitfield: Bitfield,
    pub data: AttestationData,
    pub custody_bitfield: Bitfield,
    pub aggregate_signature: AggregateSignature,
}

impl Clone for Attestation {
    fn clone(&self) -> (copy: Attestation)
        ensures
            copy@ == self@,
    {
        Attestation {
            aggregation_bitfield: self.aggregation_bitfield.clone(),
            data: self.data,
            custody_bitfield: self.custody_bitfield.clone(),
            aggregate_signature: self.aggregate_signature.clone(),
        }
    }
}

/// The record as a mathematical value.
pub struct AttestationView {
    pub aggregation_bitfield: Seq<bool>,
    pub data: AttestationDataView,
    pub custody_bitfield: Seq<bool>,
    pub aggregate_signature: Seq<u8>,
}

impl View for Attestation {
    type V = AttestationView;

    open spec fn view(&self) -> AttestationView {
        AttestationView {
            aggregation_bitfield: self.aggregation_bitfield@,
            data: self.data@,
            custody_bitfield: self.custody_bitfield@,
            aggregate_signature: self.aggregate_signature@,
        }
    }
}

/// Whether a value is the view of some record: its variable parts are short enough for their
/// length prefixes, and its roots have 32 bytes.
pub open spec fn valid_attestation(record: AttestationView) -> bool {
    &&& representable(record.aggregation_bitfield)
    &&& valid_data(record.data)
    &&& representable(record.custody_bitfield)
    &&& record.aggregate_signature.len() <= MAX_BODY_BYTES
}

/// The encoding of a record: its fields in order, the variable ones behind their lengths.
pub open spec fn spec_encode(record: AttestationView) -> Seq<u8> {
    spec_encode_bitfield(record.aggregation_bitfield) + spec_encode_data(record.data)
        + spec_encode_bitfield(record.custody_bitfield) + spec_encode_bytes(
        record.aggregate_signature,
    )
}

/// What reading a record at `offset` yields: the record and the offset behind it, or the error
/// of the first field that cannot be read.
pub open spec fn spec_decode(bytes: Seq<u8>, offset: int) -> Result<
    (AttestationView, int),
    DecodeError,
> {
    match spec_decode_bitfield(bytes, offset) {
        Err(e) => Err(e),
        Ok((aggregation_bitfield, at_data)) => match spec_decode_data(bytes, at_data) {
            Err(e) => Err(e),
            Ok((data, at_custody)) => match spec_decode_bitfield(bytes, at_custody) {
                Err(e) => Err(e),
                Ok((custody_bitfield, at_signature)) => match spec_decode_bytes(
                    bytes,
                    at_signature,
                ) {
                    Err(e) => Err(e),
                    Ok((aggregate_signature, end)) => Ok(
                        (
                            AttestationView {
                                aggregation_bitfield,
                                data,
                                custody_bitfield,
                                aggregate_signature,
                            },
                            end,
                        ),
                    ),
                },
            },
        },
    }
}

/// The hash tree root of a record: the root of the list of its four fields' roots.
pub open spec fn attestation_root(record: AttestationView) -> Seq<u8> {
    merkle_root(
        seq![
            bitfield_root(record.aggregation_bitfield),
            data_root(record.data),
            bitfield_root(record.custody_bitfield),
            bytes_root(record.aggregate_signature),
        ],
    )
}

/// The record with both bitfields padded with false bits to a whole number of bytes. The
/// encoding holds no bit count, so this is what a decoder can give back.
pub open spec fn byte_aligned_record(record: AttestationView) -> AttestationView {
    AttestationView {
        aggregation_bitfield: byte_aligned(record.aggregation_bitfield),
        data: record.data,
        custody_bitfield: byte_aligned(record.custody_bitfield),
        aggregate_signature: record.aggregate_signature,
    }
}

/// Number of bytes of the encoding of a record.
pub open spec fn encoded_len(record: AttestationView) -> nat {
    4 + packed_len(record.aggregation_bitfield.len()) + 184 + 4 + packed_len(
        record.custody_bitfield.len(),
    ) + 4 + record.aggregate_signature.len()
}

/// The encoding of a record has as many bytes as `encoded_len` says.
pub proof fn lemma_encoded_len(record: AttestationView)
    requires
        valid_data(record.data),
    ensures
        spec_encode(record).len() == encoded_len(record),
{
    crate::codec::lemma_le_bytes_len(packed_len(record.aggregation_bitfield.len()), 4);
    crate::codec::lemma_le_bytes_len(packed_len(record.custody_bitfield.len()), 4);
    crate::codec::lemma_le_bytes_len(record.aggregate_signature.len(), 4);
    crate::codec::lemma_le_bytes_len(record.data.slot as nat, 8);
    crate::codec::lemma_le_bytes_len(record.data.shard as nat, 8);
    crate::codec::lemma_le_bytes_len(record.data.justified_epoch as nat, 8);
}

/// Where the four parts of a concatenation stand in it.
proof fn lemma_parts_of_concat(
    before: Seq<u8>,
    first: Seq<u8>,
    second: Seq<u8>,
    third: Seq<u8>,
    fourth: Seq<u8>,
    after: Seq<u8>,
)
    ensures
        ({
            let bytes = before + (first + second + third + fourth) + after;
            let at_first = before.len() as int;
            let at_second = at_first + first.len();
            let at_third = at_second + second.len();
            let at_fourth = at_third + third.len();
            &&& bytes.len() == at_fourth + fourth.len() + after.len()
            &&& bytes.subrange(at_first, at_second) == first
            &&& bytes.subrange(at_second, at_third) == second
            &&& bytes.subrange(at_third, at_fourth) == third
            &&& bytes.subrange(at_fourth, at_fourth + fourth.len()) == fourth
        }),
{
    let bytes = before + (first + second + third + fourth) + after;
    let at_first = before.len() as int;
    let at_second = at_first + first.len();
    let at_third = at_second + second.len();
    let at_fourth = at_third + third.len();
    assert(bytes.subrange(at_first, at_second) =~= first);
    assert(bytes.subrange(at_second, at_third) =~= second);
    assert(bytes.subrange(at_third, at_fourth) =~= third);
    assert(bytes.subrange(at_fourth, at_fourth + fourth.len()) =~= fourth);
}

/// Decoding where the encoding of a record stands, whatever stands before and behind it, gives
/// the record, its bitfields padded to whole bytes, and the offset at which the encoding ends.
pub proof fn lemma_decode_of_encoded(before: Seq<u8>, record: AttestationView, after: Seq<u8>)
    requires
        valid_attestation(record),
    ensures
        spec_decode(before + spec_encode(record) + after, before.len() as int) == Ok::<
            (AttestationView, int),
            DecodeError,
        >((byte_aligned_record(record), (before.len() + spec_encode(record).len()) as int)),
{
    let bytes = before + spec_encode(record) + after;
    let aggregation = spec_encode_bitfield(record.aggregation_bitfield);
    let data = spec_encode_data(record.data);
    let custody = spec_encode_bitfield(record.custody_bitfield);
    let signature = spec_encode_bytes(record.aggregate_signature);
    let at_aggregation = before.len() as int;
    let at_data = at_aggregation + aggregation.len();
    let at_custody = at_data + data.len();
    let at_signature = at_custody + custody.len();
    let end = at_signature + signature.len();
    lemma_parts_of_concat(before, aggregation, data, custody, signature, after);
    assert(aggregation.len() == 4 + packed_len(record.aggregation_bitfield.len())) by {
        crate::codec::lemma_le_bytes_len(packed_len(record.aggregation_bitfield.len()), 4);
    }
    assert(custody.len() == 4 + packed_len(record.custody_bitfield.len())) by {
        crate::codec::lemma_le_bytes_len(packed_len(record.custody_bitfield.len()), 4);
    }
    assert(signature.len() == 4 + record.aggregate_signature.len()) by {
        crate::codec::lemma_le_bytes_len(record.aggregate_signature.len(), 4);
    }
    assert(data.len() == 184) by {
        crate::codec::lemma_le_bytes_len(record.data.slot as nat, 8);
        crate::codec::lemma_le_bytes_len(record.data.shard as nat, 8);
        crate::codec::lemma_le_bytes_len(record.data.justified_epoch as nat, 8);
    }
    assert(spec_decode_bitfield(bytes, at_aggregation) == Ok::<(Seq<bool>, int), DecodeError>(
        (byte_aligned(record.aggregation_bitfield), at_data),
    )) by {
        crate::bitfield::lemma_decode_bitfield_of_encoded(
            bytes,
            at_aggregation,
            record.aggregation_bitfield,
        );
    }
    assert(spec_decode_data(bytes, at_data) == Ok::<(AttestationDataView, int), DecodeError>(
        (record.data, at_custody),
    )) by {
        crate::attestation_data::lemma_decode_data_of_encoded(bytes, at_data, record.data);
    }
    assert(spec_decode_bitfield(bytes, at_custody) == Ok::<(Seq<bool>, int), DecodeError>(
        (byte_aligned(record.custody_bitfield), at_signature),
    )) by {
        crate::bitfield::lemma_decode_bitfield_of_encoded(
            bytes,
            at_custody,
            record.custody_bitfield,
        );
    }
    assert(spec_decode_bytes(bytes, at_signature) == Ok::<(Seq<u8>, int), DecodeError>(
        (record.aggregate_signature, end),
    )) by {
        crate::codec::lemma_decode_bytes_of_encoded(
            bytes,
            at_signature,
            record.aggregate_signature,
        );
    }
}

/// Decoding the encoding of a record gives the record, its bitfields padded to whole bytes.
pub proof fn lemma_decode_of_encoding(record: AttestationView)
    requires
        valid_attestation(record),
    ensures
        spec_decode(spec_encode(record), 0) == Ok::<(AttestationView, int), DecodeError>(
            (byte_aligned_record(record), spec_encode(record).len() as int),
        ),
{
    lemma_decode_of_encoded(Seq::empty(), record, Seq::empty());
    assert(Seq::<u8>::empty() + spec_encode(record) + Seq::<u8>::empty() =~= spec_encode(record));
}

/// Decoding the encoding of a record whose bit counts are multiples of eight gives the record.
pub proof fn lemma_round_trip(record: AttestationView)
    requires
        valid_attestation(record),
        record.aggregation_bitfield.len() % 8 == 0,
        record.custody_bitfield.len() % 8 == 0,
    ensures
        spec_decode(spec_encode(record), 0) == Ok::<(AttestationView, int), DecodeError>(
            (record, spec_encode(record).len() as int),
        ),
{
    lemma_decode_of_encoding(record);
    crate::bitfield::lemma_byte_aligned_of_whole_bytes(record.aggregation_bitfield);
    crate::bitfield::lemma_byte_aligned_of_whole_bytes(record.custody_bitfield);
}

/// Records with the same encoding are the same, up to the padding of their bitfields.
pub proof fn lemma_encoding_injective(first: AttestationView, second: AttestationView)
    requires
        valid_attestation(first),
        valid_attestation(second),
        spec_encode(first) == spec_encode(second),
    ensures
        byte_aligned_record(first) == byte_aligned_record(second),
{
    lemma_decode_of_encoding(first);
    lemma_decode_of_encoding(second);
}

/// Decoding a strict prefix of the encoding of a record fails.
pub proof fn lemma_decode_of_prefix(record: AttestationView, cut: int)
    requires
        valid_attestation(record),
        0 <= cut < spec_encode(record).len(),
    ensures
        spec_decode(spec_encode(record).take(cut), 0) is Err,
{
    let full = spec_encode(record);
    lemma_decode_of_encoding(record);
    let (_, at_data) = spec_decode_bitfield(full, 0)->Ok_0;
    crate::bitfield::lemma_decode_bitfield_of_prefix(full, 0, cut);
    if cut >= at_data {
        let (_, at_custody) = spec_decode_data(full, at_data)->Ok_0;
        crate::attestation_data::lemma_decode_data_of_prefix(full, at_data, cut);
        if cut >= at_custody {
            let (_, at_signature) = spec_decode_bitfield(full, at_custody)->Ok_0;
            crate::bitfield::lemma_decode_bitfield_of_prefix(full, at_custody, cut);
            if cut >= at_signature {
                crate::codec::lemma_decode_bytes_of_prefix(full, at_signature, cut);
            }
        }
    }
}

/// The hash tree root of a record has 32 bytes.
pub proof fn lemma_root_len(record: AttestationView)
    ensures
        attestation_root(record).len() == 32,
{
    let chunks = seq![
        bitfield_root(record.aggregation_bitfield),
        data_root(record.data),
        bitfield_root(record.custody_bitfield),
        bytes_root(record.aggregate_signature),
    ];
    crate::merkle::lemma_merkle_root_len(chunks);
}

/// The root of a record is the parent of two chunks: the parent of the roots of the aggregation
/// bitfield and the payload, and the parent of the roots of the custody bitfield and the
/// signature. So a field's root and two more chunks are enough to recompute it.
pub proof fn lemma_root_of_fields(record: AttestationView)
    ensures
        attestation_root(record) == crate::merkle::hash_pair(
            crate::merkle::hash_pair(
                bitfield_root(record.aggregation_bitfield),
                data_root(record.data),
            ),
            crate::merkle::hash_pair(
                bitfield_root(record.custody_bitfield),
                bytes_root(record.aggregate_signature),
            ),
        ),
{
    crate::merkle::lemma_four_chunk_root(
        bitfield_root(record.aggregation_bitfield),
        data_root(record.data),
        bitfield_root(record.custody_bitfield),
        bytes_root(record.aggregate_signature),
    );
}

/// Records that are equal as mathematical values have the same encoding, the same root and
/// the same messages to sign: none of them depends on how a record is held in memory.
pub proof fn lemma_same_view_same_bytes(first: Attestation, second: Attestation, custody_bit: bool)
    requires
        first@ == second@,
    ensures
        spec_encode(first@) == spec_encode(second@),
        attestation_root(first@) == attestation_root(second@),
        spec_signable_message(first@.data, custody_bit) == spec_signable_message(
            second@.data,
            custody_bit,
        ),
{
}

impl Attestation {
    /// The canonical encoding of the record.
    pub fn encode(&self) -> (bytes: Vec<u8>)
        ensures
            bytes@ == spec_encode(self@),
            valid_attestation(self@),
    {
        let mut bytes = self.aggregation_bitfield.encode();
        let mut data = self.data.encode();
        bytes.append(&mut data);
        let mut custody = self.custody_bitfield.encode();
        bytes.append(&mut custody);
        let mut signature = self.aggregate_signature.encode();
        bytes.append(&mut signature);
        bytes
    }

    /// Reads a record at `offset`, and says where it ends.
    pub fn decode_at(bytes: &[u8], offset: usize) -> (r: Result<(Attestation, usize), DecodeError>)
        ensures
            match r {
                Ok((record, next)) => spec_decode(bytes@, offset as int) == Ok::<
                    (AttestationView, int),
                    DecodeError,
                >((record@, next as int)),
                Err(e) => spec_decode(bytes@, offset as int) == Err::<
                    (AttestationView, int),
                    DecodeError,
                >(e),
            },
    {
        let (aggregation_bitfield, next) = Bitfield::decode(bytes, offset)?;
        let (data, next) = AttestationData::decode(bytes, next)?;
        let (custody_bitfield, next) = Bitfield::decode(bytes, next)?;
        let (aggregate_signature, next) = AggregateSignature::decode(bytes, next)?;
        Ok((Attestation { aggregation_bitfield, data, custody_bitfield, aggregate_signature }, next))
    }

    /// Reads a record from the start of `bytes`.
    pub fn decode(bytes: &[u8]) -> (r: Result<Attestation, DecodeError>)
        ensures
            match r {
                Ok(record) => spec_decode(bytes@, 0) matches Ok((view, _)) && view == record@,
                Err(e) => spec_decode(bytes@, 0) == Err::<(AttestationView, int), DecodeError>(e),
            },
    {
        match Attestation::decode_at(bytes, 0) {
            Ok((record, _)) => Ok(record),
            Err(e) => Err(e),
        }
    }

    /// The hash tree root of the record.
    pub fn hash_tree_root(&self) -> (root: Hash256)
        ensures
            root@ == attestation_root(self@),
            root@.len() == 32,
    {
        let mut chunks: Vec<Hash256> = Vec::new();
        chunks.push(self.aggregation_bitfield.hash_tree_root());
        chunks.push(self.data.hash_tree_root());
        chunks.push(self.custody_bitfield.hash_tree_root());
        chunks.push(self.aggregate_signature.hash_tree_root());
        assert(chunk_views(chunks@) =~= seq![
            bitfield_root(self.aggregation_bitfield@),
            data_root(self.data@),
            bitfield_root(self.custody_bitfield@),
            bytes_root(self.aggregate_signature@),
        ]);
        merkleize(chunks)
    }

    /// The digest that identifies the record: its hash tree root.
    pub fn canonical_root(&self) -> (root: Hash256)
        ensures
            root@ == attestation_root(self@),
            root@.len() == 32,
    {
        self.hash_tree_root()
    }

    /// The message that the aggregate signature covers, for the given custody bit.
    pub fn signable_message(&self, custody_bit: bool) -> (message: Vec<u8>)
        ensures
            message@ == spec_signable_message(self@.data, custody_bit),
    {
        self.data.signable_message(custody_bit)
    }

    /// Whether the aggregate signature is valid under `group_public_key`, in `domain`, on the
    /// message for the given custody bit.
    pub fn verify_signature(
        &self,
        group_public_key: &AggregatePublicKey,
        custody_bit: bool,
        domain: u64,
    ) -> (valid: bool)
        ensures
            valid == signature_valid(
                self@.aggregate_signature,
                spec_signable_message(self@.data, custody_bit),
                domain,
                group_public_key@,
            ),
            self@.aggregate_signature.len() != 96 && self@.aggregate_signature.len() != 192
                ==> !valid,
            group_public_key@.len() != 48 && group_public_key@.len() != 96 ==> !valid,
    {
        let message = self.signable_message(custody_bit);
        self.aggregate_signature.verify(message.as_slice(), domain, group_public_key)
    }
}

} // verus!
