//! A bit-packed vector of booleans with an explicit bit count.
//!
//! Bit `i` lives in byte `i / 8`, at the position of value `2^(i % 8)`: bit 0 is the least
//! significant bit of the first byte. Bits of the last byte beyond the bit count are zero.

use crate::codec::{
    decode_length, encode_length, le_bytes, spec_decode_length, DecodeError, MAX_BODY_BYTES,
};
use crate::merkle::{
    chunks_of, merkle_root, merkleize, mix_in_length, mixed_in_length, pack, Hash256,
};
use vstd::prelude::*;

verus! {

/// Bit `k` of a byte, for `k` below eight.
pub open spec fn bit_of(byte: u8, k: u8) -> bool {
    (byte >> k) & 1u8 == 1u8
}

/// The byte whose bit `k` is `bk`.
pub open spec fn byte_of(
    b0: bool,
    b1: bool,
    b2: bool,
    b3: bool,
    b4: bool,
    b5: bool,
    b6: bool,
    b7: bool,
) -> u8 {
    (if b0 { 1u8 } else { 0u8 })
        | (if b1 { 2u8 } else { 0u8 })
        | (if b2 { 4u8 } else { 0u8 })
        | (if b3 { 8u8 } else { 0u8 })
        | (if b4 { 16u8 } else { 0u8 })
        | (if b5 { 32u8 } else { 0u8 })
        | (if b6 { 64u8 } else { 0u8 })
        | (if b7 { 128u8 } else { 0u8 })
}

/// Bit `i` of a bit sequence, false beyond its end.
pub open spec fn bit_at(bits: Seq<bool>, i: int) -> bool {
    0 <= i < bits.len() && bits[i]
}

/// Number of bytes that hold `n` bits.
pub open spec fn packed_len(n: nat) -> nat {
    (n + 7) / 8
}

/// The packed form of a bit sequence.
pub open spec fn pack_bits(bits: Seq<bool>) -> Seq<u8> {
    Seq::new(
        packed_len(bits.len()),
        |j: int|
            byte_of(
                bit_at(bits, 8 * j),
                bit_at(bits, 8 * j + 1),
                bit_at(bits, 8 * j + 2),
                bit_at(bits, 8 * j + 3),
                bit_at(bits, 8 * j + 4),
                bit_at(bits, 8 * j + 5),
                bit_at(bits, 8 * j + 6),
                bit_at(bits, 8 * j + 7),
            ),
    )
}

/// Bit `i` of a byte string.
pub open spec fn byte_string_bit(bytes: Seq<u8>, i: int) -> bool {
    bit_of(bytes[i / 8], (i % 8) as u8)
}

/// All bits of a byte string, eight per byte.
pub open spec fn unpack_bits(bytes: Seq<u8>) -> Seq<bool> {
    Seq::new(8 * bytes.len(), |i: int| byte_string_bit(bytes, i))
}

/// Whether `bytes` is the packed form of some sequence of `bit_count` bits.
pub open spec fn is_packed(bytes: Seq<u8>, bit_count: nat) -> bool {
    &&& bytes.len() == packed_len(bit_count)
    &&& forall|i: int| bit_count <= i < 8 * bytes.len() ==> !#[trigger] byte_string_bit(bytes, i)
}

/// Whether a bit sequence is short enough for its packed length to fit a length prefix.
pub open spec fn representable(bits: Seq<bool>) -> bool {
    packed_len(bits.len()) <= MAX_BODY_BYTES
}

/// A bit sequence padded with false bits to a whole number of bytes.
pub open spec fn byte_aligned(bits: Seq<bool>) -> Seq<bool> {
    Seq::new(8 * packed_len(bits.len()), |i: int| bit_at(bits, i))
}

/// A padded bit sequence has the packed form of the sequence itself, and cutting it to the
/// length of the sequence gives the sequence again.
pub proof fn lemma_byte_aligned(bits: Seq<bool>)
    ensures
        pack_bits(byte_aligned(bits)) == pack_bits(bits),
        byte_aligned(bits).take(bits.len() as int) == bits,
{
    let packed = pack_bits(bits);
    lemma_unpack_of_pack(bits);
    assert(is_packed(packed, 8 * packed.len()));
    lemma_pack_of_unpack(packed, 8 * packed.len());
    assert(unpack_bits(packed).take(8 * packed.len() as int) =~= unpack_bits(packed));
}

/// Padding a bit sequence of whole bytes adds nothing.
pub proof fn lemma_byte_aligned_of_whole_bytes(bits: Seq<bool>)
    requires
        bits.len() % 8 == 0,
    ensures
        byte_aligned(bits) == bits,
{
    assert(byte_aligned(bits) =~= bits);
}

/// A byte reassembled from its eight bits is the byte.
pub proof fn lemma_byte_of_bits(byte: u8)
    ensures
        byte_of(
            bit_of(byte, 0),
            bit_of(byte, 1),
            bit_of(byte, 2),
            bit_of(byte, 3),
            bit_of(byte, 4),
            bit_of(byte, 5),
            bit_of(byte, 6),
            bit_of(byte, 7),
        ) == byte,
{
    assert((if (byte >> 0u8) & 1u8 == 1u8 { 1u8 } else { 0u8 })
        | (if (byte >> 1u8) & 1u8 == 1u8 { 2u8 } else { 0u8 })
        | (if (byte >> 2u8) & 1u8 == 1u8 { 4u8 } else { 0u8 })
        | (if (byte >> 3u8) & 1u8 == 1u8 { 8u8 } else { 0u8 })
        | (if (byte >> 4u8) & 1u8 == 1u8 { 16u8 } else { 0u8 })
        | (if (byte >> 5u8) & 1u8 == 1u8 { 32u8 } else { 0u8 })
        | (if (byte >> 6u8) & 1u8 == 1u8 { 64u8 } else { 0u8 })
        | (if (byte >> 7u8) & 1u8 == 1u8 { 128u8 } else { 0u8 }) == byte) by (bit_vector);
}

/// Each bit of an assembled byte is the bit it was assembled from.
pub proof fn lemma_bits_of_byte(
    b0: bool,
    b1: bool,
    b2: bool,
    b3: bool,
    b4: bool,
    b5: bool,
    b6: bool,
    b7: bool,
)
    ensures
        bit_of(byte_of(b0, b1, b2, b3, b4, b5, b6, b7), 0) == b0,
        bit_of(byte_of(b0, b1, b2, b3, b4, b5, b6, b7), 1) == b1,
        bit_of(byte_of(b0, b1, b2, b3, b4, b5, b6, b7), 2) == b2,
        bit_of(byte_of(b0, b1, b2, b3, b4, b5, b6, b7), 3) == b3,
        bit_of(byte_of(b0, b1, b2, b3, b4, b5, b6, b7), 4) == b4,
        bit_of(byte_of(b0, b1, b2, b3, b4, b5, b6, b7), 5) == b5,
        bit_of(byte_of(b0, b1, b2, b3, b4, b5, b6, b7), 6) == b6,
        bit_of(byte_of(b0, b1, b2, b3, b4, b5, b6, b7), 7) == b7,
{
    let byte = byte_of(b0, b1, b2, b3, b4, b5, b6, b7);
    let v0: u8 = if b0 { 1u8 } else { 0u8 };
    let v1: u8 = if b1 { 2u8 } else { 0u8 };
    let v2: u8 = if b2 { 4u8 } else { 0u8 };
    let v3: u8 = if b3 { 8u8 } else { 0u8 };
    let v4: u8 = if b4 { 16u8 } else { 0u8 };
    let v5: u8 = if b5 { 32u8 } else { 0u8 };
    let v6: u8 = if b6 { 64u8 } else { 0u8 };
    let v7: u8 = if b7 { 128u8 } else { 0u8 };
    assert(byte == v0 | v1 | v2 | v3 | v4 | v5 | v6 | v7);
    assert({
        &&& ((byte >> 0u8) & 1u8 == 1u8) == (v0 == 1u8)
        &&& ((byte >> 1u8) & 1u8 == 1u8) == (v1 == 2u8)
        &&& ((byte >> 2u8) & 1u8 == 1u8) == (v2 == 4u8)
        &&& ((byte >> 3u8) & 1u8 == 1u8) == (v3 == 8u8)
        &&& ((byte >> 4u8) & 1u8 == 1u8) == (v4 == 16u8)
        &&& ((byte >> 5u8) & 1u8 == 1u8) == (v5 == 32u8)
        &&& ((byte >> 6u8) & 1u8 == 1u8) == (v6 == 64u8)
        &&& ((byte >> 7u8) & 1u8 == 1u8) == (v7 == 128u8)
    }) by (bit_vector)
        requires
            byte == v0 | v1 | v2 | v3 | v4 | v5 | v6 | v7,
            v0 == 0u8 || v0 == 1u8,
            v1 == 0u8 || v1 == 2u8,
            v2 == 0u8 || v2 == 4u8,
            v3 == 0u8 || v3 == 8u8,
            v4 == 0u8 || v4 == 16u8,
            v5 == 0u8 || v5 == 32u8,
            v6 == 0u8 || v6 == 64u8,
            v7 == 0u8 || v7 == 128u8,
    ;
}

/// Unpacking a packed bit sequence gives the sequence again, padded with false bits to a whole
/// number of bytes; so the packed form has no bit set beyond the bit count.
pub proof fn lemma_unpack_of_pack(bits: Seq<bool>)
    ensures
        unpack_bits(pack_bits(bits)) == byte_aligned(bits),
        unpack_bits(pack_bits(bits)).take(bits.len() as int) == bits,
        is_packed(pack_bits(bits), bits.len()),
{
    let packed = pack_bits(bits);
    assert forall|i: int| 0 <= i < 8 * packed.len() implies byte_string_bit(packed, i) == bit_at(
        bits,
        i,
    ) by {
        let j = i / 8;
        lemma_bits_of_byte(
            bit_at(bits, 8 * j),
            bit_at(bits, 8 * j + 1),
            bit_at(bits, 8 * j + 2),
            bit_at(bits, 8 * j + 3),
            bit_at(bits, 8 * j + 4),
            bit_at(bits, 8 * j + 5),
            bit_at(bits, 8 * j + 6),
            bit_at(bits, 8 * j + 7),
        );
    }
    assert(unpack_bits(packed) =~= byte_aligned(bits));
    assert(unpack_bits(packed).take(bits.len() as int) =~= bits);
}

/// A packed byte string is the packed form of the bits it holds.
pub proof fn lemma_pack_of_unpack(bytes: Seq<u8>, bit_count: nat)
    requires
        is_packed(bytes, bit_count),
    ensures
        pack_bits(unpack_bits(bytes).take(bit_count as int)) == bytes,
{
    let bits = unpack_bits(bytes).take(bit_count as int);
    let packed = pack_bits(bits);
    assert forall|j: int| 0 <= j < bytes.len() implies packed[j] == bytes[j] by {
        assert(byte_string_bit(bytes, 8 * j + 0) == bit_of(bytes[j], 0)) by {
            assert((8 * j + 0) / 8 == j && (8 * j + 0) % 8 == 0);
        }
        assert(bit_at(bits, 8 * j + 0) == bit_of(bytes[j], 0));
        assert(byte_string_bit(bytes, 8 * j + 1) == bit_of(bytes[j], 1)) by {
            assert((8 * j + 1) / 8 == j && (8 * j + 1) % 8 == 1);
        }
        assert(bit_at(bits, 8 * j + 1) == bit_of(bytes[j], 1));
        assert(byte_string_bit(bytes, 8 * j + 2) == bit_of(bytes[j], 2)) by {
            assert((8 * j + 2) / 8 == j && (8 * j + 2) % 8 == 2);
        }
        assert(bit_at(bits, 8 * j + 2) == bit_of(bytes[j], 2));
        assert(byte_string_bit(bytes, 8 * j + 3) == bit_of(bytes[j], 3)) by {
            assert((8 * j + 3) / 8 == j && (8 * j + 3) % 8 == 3);
        }
        assert(bit_at(bits, 8 * j + 3) == bit_of(bytes[j], 3));
        assert(byte_string_bit(bytes, 8 * j + 4) == bit_of(bytes[j], 4)) by {
            assert((8 * j + 4) / 8 == j && (8 * j + 4) % 8 == 4);
        }
        assert(bit_at(bits, 8 * j + 4) == bit_of(bytes[j], 4));
        assert(byte_string_bit(bytes, 8 * j + 5) == bit_of(bytes[j], 5)) by {
            assert((8 * j + 5) / 8 == j && (8 * j + 5) % 8 == 5);
        }
        assert(bit_at(bits, 8 * j + 5) == bit_of(bytes[j], 5));
        assert(byte_string_bit(bytes, 8 * j + 6) == bit_of(bytes[j], 6)) by {
            assert((8 * j + 6) / 8 == j && (8 * j + 6) % 8 == 6);
        }
        assert(bit_at(bits, 8 * j + 6) == bit_of(bytes[j], 6));
        assert(byte_string_bit(bytes, 8 * j + 7) == bit_of(bytes[j], 7)) by {
            assert((8 * j + 7) / 8 == j && (8 * j + 7) % 8 == 7);
        }
        assert(bit_at(bits, 8 * j + 7) == bit_of(bytes[j], 7));
        lemma_byte_of_bits(bytes[j]);
    }
    assert(packed =~= bytes);
}

/// The bits of `byte` from position `used` upwards are all zero exactly when shifting them down
/// leaves nothing.
proof fn lemma_spare_bits(byte: u8, used: u8)
    requires
        0 < used < 8,
    ensures
        (byte >> used == 0) <==> (forall|k: u8| used <= k < 8 ==> !bit_of(byte, k)),
{
    assert((byte >> used == 0) <==> {
        &&& (used > 1 || (byte >> 1u8) & 1u8 != 1u8)
        &&& (used > 2 || (byte >> 2u8) & 1u8 != 1u8)
        &&& (used > 3 || (byte >> 3u8) & 1u8 != 1u8)
        &&& (used > 4 || (byte >> 4u8) & 1u8 != 1u8)
        &&& (used > 5 || (byte >> 5u8) & 1u8 != 1u8)
        &&& (used > 6 || (byte >> 6u8) & 1u8 != 1u8)
        &&& (byte >> 7u8) & 1u8 != 1u8
    }) by (bit_vector)
        requires
            0 < used < 8,
    ;
    if byte >> used == 0 {
        assert forall|k: u8| used <= k < 8 implies !bit_of(byte, k) by {
            assert(k == 1 || k == 2 || k == 3 || k == 4 || k == 5 || k == 6 || k == 7);
        }
    } else {
        if forall|k: u8| used <= k < 8 ==> !bit_of(byte, k) {
            assert(used > 1 || !bit_of(byte, 1));
            assert(used > 2 || !bit_of(byte, 2));
            assert(used > 3 || !bit_of(byte, 3));
            assert(used > 4 || !bit_of(byte, 4));
            assert(used > 5 || !bit_of(byte, 5));
            assert(used > 6 || !bit_of(byte, 6));
            assert(!bit_of(byte, 7));
        }
    }
}

/// The encoding of a bit sequence: the length of its packed form in four bytes, then that form.
pub open spec fn spec_encode_bitfield(bits: Seq<bool>) -> Seq<u8> {
    le_bytes(packed_len(bits.len()), 4) + pack_bits(bits)
}

/// What reading an encoded bitfield at `offset` yields: every bit of the body, eight per byte,
/// and the offset behind the body.
pub open spec fn spec_decode_bitfield(bytes: Seq<u8>, offset: int) -> Result<
    (Seq<bool>, int),
    DecodeError,
> {
    match spec_decode_length(bytes, offset) {
        Err(e) => Err(e),
        Ok((len, start)) => if start + len <= bytes.len() {
            Ok((unpack_bits(bytes.subrange(start, start + len)), start + len))
        } else {
            Err(DecodeError::TooShort)
        },
    }
}

/// A bit sequence is read back from where its encoding stands, padded with false bits to a
/// whole number of bytes.
pub proof fn lemma_decode_bitfield_of_encoded(bytes: Seq<u8>, offset: int, bits: Seq<bool>)
    requires
        0 <= offset,
        representable(bits),
        offset + 4 + packed_len(bits.len()) <= bytes.len(),
        bytes.subrange(offset, offset + 4 + packed_len(bits.len())) == spec_encode_bitfield(bits),
    ensures
        spec_decode_bitfield(bytes, offset) == Ok::<(Seq<bool>, int), DecodeError>(
            (byte_aligned(bits), offset + 4 + packed_len(bits.len())),
        ),
{
    let body = pack_bits(bits);
    let encoded = spec_encode_bitfield(bits);
    let n = body.len() as int;
    crate::codec::lemma_le_bytes_len(body.len(), 4);
    assert(bytes.subrange(offset, offset + 4) =~= encoded.subrange(0, 4));
    assert(encoded.subrange(0, 4) =~= le_bytes(body.len(), 4));
    crate::codec::lemma_decode_length_of_encoded(bytes, offset, body.len());
    assert(bytes.subrange(offset + 4, offset + 4 + n) =~= encoded.subrange(4, 4 + n));
    assert(encoded.subrange(4, 4 + n) =~= body);
    lemma_unpack_of_pack(bits);
}

/// Cutting a buffer behind an encoded bitfield leaves the bitfield readable; cutting it
/// earlier leaves an error.
pub proof fn lemma_decode_bitfield_of_prefix(bytes: Seq<u8>, offset: int, cut: int)
    requires
        0 <= cut <= bytes.len(),
        spec_decode_bitfield(bytes, offset) is Ok,
    ensures
        cut >= spec_decode_bitfield(bytes, offset)->Ok_0.1 ==> spec_decode_bitfield(
            bytes.take(cut),
            offset,
        ) == spec_decode_bitfield(bytes, offset),
        cut < spec_decode_bitfield(bytes, offset)->Ok_0.1 ==> spec_decode_bitfield(
            bytes.take(cut),
            offset,
        ) is Err,
{
    crate::codec::lemma_decode_length_of_prefix(bytes, offset, cut);
    let (len, start) = spec_decode_length(bytes, offset)->Ok_0;
    if cut >= start + len {
        assert(bytes.take(cut).subrange(start, start + len) =~= bytes.subrange(start, start + len));
    }
}

/// The hash tree root of a bit sequence: the root of its packed form, with the number of bits
/// mixed in.
pub open spec fn bitfield_root(bits: Seq<bool>) -> Seq<u8> {
    mixed_in_length(merkle_root(chunks_of(pack_bits(bits))), bits.len())
}

/// A bit-packed vector of booleans. Its view is the sequence of its bits.
#[derive(Debug, PartialEq, Eq)]
pub struct Bitfield {
    bytes: Vec<u8>,
    len: u64,
}

impl View for Bitfield {
    type V = Seq<bool>;

    closed spec fn view(&self) -> Seq<bool> {
        unpack_bits(self.bytes@).take(self.len as int)
    }
}

impl Clone for Bitfield {
    fn clone(&self) -> (copy: Bitfield)
        ensures
            copy@ == self@,
    {
        proof {
            use_type_invariant(self);
        }
        Bitfield { bytes: vstd::slice::slice_to_vec(self.bytes.as_slice()), len: self.len }
    }
}

fn bit_or_false(bits: &[bool], i: u64) -> (b: bool)
    ensures
        b == bit_at(bits@, i as int),
{
    if i < bits.len() as u64 {
        bits[i as usize]
    } else {
        false
    }
}

fn assemble(
    b0: bool,
    b1: bool,
    b2: bool,
    b3: bool,
    b4: bool,
    b5: bool,
    b6: bool,
    b7: bool,
) -> (byte: u8)
    ensures
        byte == byte_of(b0, b1, b2, b3, b4, b5, b6, b7),
{
    (if b0 { 1u8 } else { 0u8 })
        | (if b1 { 2u8 } else { 0u8 })
        | (if b2 { 4u8 } else { 0u8 })
        | (if b3 { 8u8 } else { 0u8 })
        | (if b4 { 16u8 } else { 0u8 })
        | (if b5 { 32u8 } else { 0u8 })
        | (if b6 { 64u8 } else { 0u8 })
        | (if b7 { 128u8 } else { 0u8 })
}

impl Bitfield {
    #[verifier::type_invariant]
    spec fn well_formed(&self) -> bool {
        &&& is_packed(self.bytes@, self.len as nat)
        &&& self.bytes@.len() <= MAX_BODY_BYTES
    }

    /// A bitfield with the given bits, unless they are too many for the encoding.
    pub fn from_bits(bits: &[bool]) -> (r: Option<Bitfield>)
        ensures
            r is Some <==> representable(bits@),
            r is Some ==> r->0@ == bits@,
    {
        let n: usize = bits.len();
        let byte_len: usize = n / 8 + (if n % 8 == 0 { 0 } else { 1 });
        if byte_len > MAX_BODY_BYTES {
            return None;
        }
        let mut bytes: Vec<u8> = Vec::new();
        let mut j: usize = 0;
        while j < byte_len
            invariant
                j <= byte_len,
                byte_len == packed_len(bits@.len()),
                byte_len <= MAX_BODY_BYTES,
                bytes@ == pack_bits(bits@).take(j as int),
            decreases byte_len - j,
        {
            let base: u64 = 8 * (j as u64);
            let byte = assemble(
                bit_or_false(bits, base),
                bit_or_false(bits, base + 1),
                bit_or_false(bits, base + 2),
                bit_or_false(bits, base + 3),
                bit_or_false(bits, base + 4),
                bit_or_false(bits, base + 5),
                bit_or_false(bits, base + 6),
                bit_or_false(bits, base + 7),
            );
            bytes.push(byte);
            j += 1;
            assert(bytes@ =~= pack_bits(bits@).take(j as int));
        }
        proof {
            lemma_unpack_of_pack(bits@);
            assert(bytes@ =~= pack_bits(bits@));
        }
        Some(Bitfield { bytes, len: n as u64 })
    }

    /// A bitfield of `bit_count` bits, all false, unless they are too many for the encoding.
    pub fn new(bit_count: u64) -> (r: Option<Bitfield>)
        ensures
            r is Some <==> packed_len(bit_count as nat) <= MAX_BODY_BYTES,
            r is Some ==> r->0@ == Seq::new(bit_count as nat, |i: int| false),
    {
        let byte_len: u64 = bit_count / 8 + (if bit_count % 8 == 0 { 0 } else { 1 });
        if byte_len > MAX_BODY_BYTES as u64 {
            return None;
        }
        let bytes: Vec<u8> = vec![0u8; byte_len as usize];
        proof {
            assert forall|i: int| 0 <= i < 8 * bytes@.len() implies !byte_string_bit(bytes@, i) by {
                let k = (i % 8) as u8;
                assert((0u8 >> k) & 1u8 != 1u8) by (bit_vector);
            }
            assert(unpack_bits(bytes@).take(bit_count as int) =~= Seq::new(
                bit_count as nat,
                |i: int| false,
            ));
        }
        Some(Bitfield { bytes, len: bit_count })
    }

    /// The bitfield of `bit_count` bits whose packed form is `bytes`, if there is one.
    pub fn from_packed(bytes: &[u8], bit_count: u64) -> (r: Option<Bitfield>)
        ensures
            r is Some <==> is_packed(bytes@, bit_count as nat) && bytes@.len() <= MAX_BODY_BYTES,
            r is Some ==> r->0@ == unpack_bits(bytes@).take(bit_count as int),
    {
        let byte_len: u64 = bit_count / 8 + (if bit_count % 8 == 0 { 0 } else { 1 });
        if bytes.len() > MAX_BODY_BYTES || bytes.len() as u64 != byte_len {
            return None;
        }
        let used: u8 = (bit_count % 8) as u8;
        if used != 0 {
            let last_index = bytes.len() - 1;
            let last = bytes[last_index];
            if last >> used != 0 {
                proof {
                    lemma_spare_bits(last, used);
                    let k = choose|k: u8| used <= k < 8 && bit_of(last, k);
                    let i = 8 * last_index + k;
                    assert(i / 8 == last_index && i % 8 == k as int);
                    assert(byte_string_bit(bytes@, i));
                }
                return None;
            }
            proof {
                lemma_spare_bits(last, used);
                assert forall|i: int| bit_count <= i < 8 * bytes@.len() implies !byte_string_bit(
                    bytes@,
                    i,
                ) by {
                    assert(i / 8 == last_index);
                    let k = (i % 8) as u8;
                    assert(used <= k && k < 8);
                }
            }
        }
        Some(Bitfield { bytes: vstd::slice::slice_to_vec(bytes), len: bit_count })
    }

    /// The bitfield that holds every bit of `bytes`, eight per byte, unless the bytes are too
    /// many for the encoding.
    pub fn from_bytes(bytes: &[u8]) -> (r: Option<Bitfield>)
        ensures
            r is Some <==> bytes@.len() <= MAX_BODY_BYTES,
            r is Some ==> r->0@ == unpack_bits(bytes@),
    {
        if bytes.len() > MAX_BODY_BYTES {
            return None;
        }
        let bit_count: u64 = 8 * (bytes.len() as u64);
        assert(unpack_bits(bytes@).take(bit_count as int) =~= unpack_bits(bytes@));
        Some(Bitfield { bytes: vstd::slice::slice_to_vec(bytes), len: bit_count })
    }

    /// The number of bits.
    pub fn len(&self) -> (n: u64)
        ensures
            n == self@.len(),
            representable(self@),
    {
        proof {
            use_type_invariant(self);
        }
        self.len
    }

    /// Bit `i`, or nothing when `i` is not below the bit count.
    pub fn get(&self, i: u64) -> (bit: Option<bool>)
        ensures
            bit is Some <==> i < self@.len(),
            bit is Some ==> bit->0 == self@[i as int],
    {
        proof {
            use_type_invariant(self);
        }
        if i < self.len {
            let byte = self.bytes[(i / 8) as usize];
            let k: u8 = (i % 8) as u8;
            Some((byte >> k) & 1u8 == 1u8)
        } else {
            None
        }
    }

    /// The packed bits: the body of the encoding.
    pub fn to_bytes(&self) -> (bytes: Vec<u8>)
        ensures
            bytes@ == pack_bits(self@),
    {
        proof {
            use_type_invariant(self);
            lemma_pack_of_unpack(self.bytes@, self.len as nat);
        }
        vstd::slice::slice_to_vec(self.bytes.as_slice())
    }

    /// The hash tree root.
    pub fn hash_tree_root(&self) -> (root: Hash256)
        ensures
            root@ == bitfield_root(self@),
    {
        proof {
            use_type_invariant(self);
            lemma_pack_of_unpack(self.bytes@, self.len as nat);
        }
        let contents = merkleize(pack(self.bytes.as_slice()));
        mix_in_length(&contents, self.len)
    }

    /// The encoding: the number of body bytes in four bytes, then the packed bits.
    pub fn encode(&self) -> (bytes: Vec<u8>)
        ensures
            bytes@ == spec_encode_bitfield(self@),
            representable(self@),
    {
        proof {
            use_type_invariant(self);
        }
        let mut bytes = encode_length(self.bytes.len());
        let mut body = self.to_bytes();
        bytes.append(&mut body);
        bytes
    }

    /// Reads an encoded bitfield at `offset`. The result holds every bit of the body, eight per
    /// byte; `from_packed` gives a bitfield of another bit count.
    pub fn decode(bytes: &[u8], offset: usize) -> (r: Result<(Bitfield, usize), DecodeError>)
        ensures
            match r {
                Ok((bitfield, next)) => spec_decode_bitfield(bytes@, offset as int) == Ok::<
                    (Seq<bool>, int),
                    DecodeError,
                >((bitfield@, next as int)),
                Err(e) => spec_decode_bitfield(bytes@, offset as int) == Err::<
                    (Seq<bool>, int),
                    DecodeError,
                >(e),
            },
    {
        match decode_length(bytes, offset) {
            Err(e) => Err(e),
            Ok((len, start)) => {
                if bytes.len() - start < len {
                    return Err(DecodeError::TooShort);
                }
                let body = vstd::slice::slice_subrange(bytes, start, start + len);
                match Bitfield::from_bytes(body) {
                    Some(bitfield) => Ok((bitfield, start + len)),
                    None => Err(DecodeError::TooShort),
                }
            },
        }
    }
}

} // verus!
