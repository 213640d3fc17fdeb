//! Aggregate BLS signatures and public keys, held as the bytes of their serialized form.

use crate::codec::{
    decode_bytes, encode_bytes, encode_u64, le_bytes, spec_decode_bytes, spec_encode_bytes,
    DecodeError, MAX_BODY_BYTES,
};
use crate::merkle::{bytes_root, hash_tree_root_bytes, Hash256};
use vstd::prelude::*;

verus! {

/// Whether `signature` is a valid BLS signature on `message` under `public_key`, with
/// `domain_tag` as the tag that separates domains when the message is hashed to the curve.
pub uninterp spec fn bls_verify(
    public_key: Seq<u8>,
    message: Seq<u8>,
    signature: Seq<u8>,
    domain_tag: Seq<u8>,
) -> bool;

/// `verify` of `bls_on_arkworks`: whether the signature is valid on the message under the
/// public key and the tag. It fails a signature that is not 96 or 192 bytes long, and a public
/// key that is not 48 or 96 bytes long.
#[verifier::external_body]
fn bls_on_arkworks_verify(
    public_key: &Vec<u8>,
    message: &Vec<u8>,
    signature: &Vec<u8>,
    domain_tag: &Vec<u8>,
) -> (valid: bool)
    ensures
        valid == bls_verify(public_key@, message@, signature@, domain_tag@),
        signature@.len() != 96 && signature@.len() != 192 ==> !valid,
        public_key@.len() != 48 && public_key@.len() != 96 ==> !valid,
{
    bls_on_arkworks::verify(public_key, message, signature, domain_tag)
}

/// The tag that stands for a numeric domain: its eight bytes, least significant first.
pub open spec fn domain_tag(domain: u64) -> Seq<u8> {
    le_bytes(domain as nat, 8)
}

/// Whether `signature` is valid on `message` in `domain` under `public_key`.
pub open spec fn signature_valid(
    signature: Seq<u8>,
    message: Seq<u8>,
    domain: u64,
    public_key: Seq<u8>,
) -> bool {
    bls_verify(public_key, message, signature, domain_tag(domain))
}

/// Different domains have different tags.
pub proof fn lemma_domain_tag_injective(first: u64, second: u64)
    requires
        domain_tag(first) == domain_tag(second),
    ensures
        first == second,
{
    reveal_with_fuel(crate::codec::byte_range, 9);
    crate::codec::lemma_le_value_of_bytes(first as nat, 8);
    crate::codec::lemma_le_value_of_bytes(second as nat, 8);
}

/// An aggregate public key. Its view is its serialized form.
#[derive(Debug, PartialEq, Eq)]
pub struct AggregatePublicKey {
    bytes: Vec<u8>,
}

impl Clone for AggregatePublicKey {
    fn clone(&self) -> (copy: AggregatePublicKey)
        ensures
            copy@ == self@,
    {
        AggregatePublicKey { bytes: vstd::slice::slice_to_vec(self.bytes.as_slice()) }
    }
}

impl View for AggregatePublicKey {
    type V = Seq<u8>;

    closed spec fn view(&self) -> Seq<u8> {
        self.bytes@
    }
}

impl AggregatePublicKey {
    /// The public key with the given serialized form.
    pub fn from_bytes(bytes: &[u8]) -> (key: AggregatePublicKey)
        ensures
            key@ == bytes@,
    {
        AggregatePublicKey { bytes: vstd::slice::slice_to_vec(bytes) }
    }

    /// The serialized form.
    pub fn to_bytes(&self) -> (bytes: Vec<u8>)
        ensures
            bytes@ == self@,
    {
        vstd::slice::slice_to_vec(self.bytes.as_slice())
    }
}

/// An aggregate signature. Its view is its serialized form.
#[derive(Debug, PartialEq, Eq)]
pub struct AggregateSignature {
    bytes: Vec<u8>,
}

impl View for AggregateSignature {
    type V = Seq<u8>;

    closed spec fn view(&self) -> Seq<u8> {
        self.bytes@
    }
}

impl Clone for AggregateSignature {
    fn clone(&self) -> (copy: AggregateSignature)
        ensures
            copy@ == self@,
    {
        proof {
            use_type_invariant(self);
        }
        AggregateSignature { bytes: vstd::slice::slice_to_vec(self.bytes.as_slice()) }
    }
}

impl AggregateSignature {
    #[verifier::type_invariant]
    spec fn well_formed(&self) -> bool {
        self.bytes@.len() <= MAX_BODY_BYTES
    }

    /// The signature with the given serialized form, unless the bytes are too many for the
    /// encoding.
    pub fn from_bytes(bytes: &[u8]) -> (r: Option<AggregateSignature>)
        ensures
            r is Some <==> bytes@.len() <= MAX_BODY_BYTES,
            r is Some ==> r->0@ == bytes@,
    {
        if bytes.len() > MAX_BODY_BYTES {
            return None;
        }
        Some(AggregateSignature { bytes: vstd::slice::slice_to_vec(bytes) })
    }

    /// The serialized form.
    pub fn to_bytes(&self) -> (bytes: Vec<u8>)
        ensures
            bytes@ == self@,
            bytes@.len() <= MAX_BODY_BYTES,
    {
        proof {
            use_type_invariant(self);
        }
        vstd::slice::slice_to_vec(self.bytes.as_slice())
    }

    /// Whether the signature is valid on `message` in `domain` under `public_key`. A signature
    /// or a key of a length that no serialized form has is not valid.
    pub fn verify(&self, message: &[u8], domain: u64, public_key: &AggregatePublicKey) -> (valid:
        bool)
        ensures
            valid == signature_valid(self@, message@, domain, public_key@),
            self@.len() != 96 && self@.len() != 192 ==> !valid,
            public_key@.len() != 48 && public_key@.len() != 96 ==> !valid,
    {
        let tag = encode_u64(domain);
        let message = vstd::slice::slice_to_vec(message);
        bls_on_arkworks_verify(&public_key.bytes, &message, &self.bytes, &tag)
    }

    /// The encoding: the number of bytes of the serialized form in four bytes, then that form.
    pub fn encode(&self) -> (bytes: Vec<u8>)
        ensures
            bytes@ == spec_encode_bytes(self@),
            self@.len() <= MAX_BODY_BYTES,
    {
        proof {
            use_type_invariant(self);
        }
        encode_bytes(self.bytes.as_slice())
    }

    /// Reads an encoded signature at `offset`.
    pub fn decode(bytes: &[u8], offset: usize) -> (r: Result<
        (AggregateSignature, usize),
        DecodeError,
    >)
        ensures
            match r {
                Ok((signature, next)) => spec_decode_bytes(bytes@, offset as int) == Ok::<
                    (Seq<u8>, int),
                    DecodeError,
                >((signature@, next as int)),
                Err(e) => spec_decode_bytes(bytes@, offset as int) == Err::<
                    (Seq<u8>, int),
                    DecodeError,
                >(e),
            },
    {
        match decode_bytes(bytes, offset) {
            Err(e) => Err(e),
            Ok((body, next)) => Ok((AggregateSignature { bytes: body }, next)),
        }
    }

    /// The hash tree root: that of a byte string of variable length.
    pub fn hash_tree_root(&self) -> (root: Hash256)
        ensures
            root@ == bytes_root(self@),
    {
        hash_tree_root_bytes(self.bytes.as_slice())
    }
}

} // verus!
