//! Little-endian scalars and length prefixes of the canonical byte encoding.

use vstd::prelude::*;

verus! {

/// Why a byte string could not be decoded.
#[derive(Debug, Clone, Copy, PartialEq, Eq, Structural)]
pub enum DecodeError {
    /// Fewer bytes remain than the length field of a bitfield announces.
    TooShort,
    /// The length field of a byte string announces more bytes than remain.
    InvalidLength,
    /// A fixed-width read runs past the end of the buffer.
    Malformed,
}

/// Largest number of body bytes that a four-byte length prefix can announce.
pub const MAX_BODY_BYTES: usize = 0xffff_ffff;

/// The `width` low-order bytes of `value`, least significant first.
pub open spec fn le_bytes(value: nat, width: nat) -> Seq<u8>
    decreases width,
{
    if width == 0 {
        Seq::empty()
    } else {
        seq![(value % 256) as u8] + le_bytes(value / 256, (width - 1) as nat)
    }
}

/// The number that `bytes` spell, least significant byte first.
pub open spec fn le_value(bytes: Seq<u8>) -> nat
    decreases bytes.len(),
{
    if bytes.len() == 0 {
        0
    } else {
        bytes[0] as nat + 256 * le_value(bytes.skip(1))
    }
}

/// 256 to the power `width`.
pub open spec fn byte_range(width: nat) -> nat
    decreases width,
{
    if width == 0 {
        1
    } else {
        256 * byte_range((width - 1) as nat)
    }
}

/// `le_bytes` yields exactly `width` bytes.
pub proof fn lemma_le_bytes_len(value: nat, width: nat)
    ensures
        le_bytes(value, width).len() == width,
    decreases width,
{
    if width > 0 {
        lemma_le_bytes_len(value / 256, (width - 1) as nat);
    }
}

/// Reading back what `le_bytes` wrote gives the value again, as long as it fits the width.
pub proof fn lemma_le_value_of_bytes(value: nat, width: nat)
    requires
        value < byte_range(width),
    ensures
        le_value(le_bytes(value, width)) == value,
    decreases width,
{
    if width > 0 {
        let rest = le_bytes(value / 256, (width - 1) as nat);
        let all = le_bytes(value, width);
        lemma_le_bytes_len(value / 256, (width - 1) as nat);
        assert(all.skip(1) =~= rest);
        assert(value / 256 < byte_range((width - 1) as nat)) by (nonlinear_arith)
            requires
                value < 256 * byte_range((width - 1) as nat),
        ;
        lemma_le_value_of_bytes(value / 256, (width - 1) as nat);
        assert(value == (value % 256) + 256 * (value / 256)) by (nonlinear_arith);
    }
}

/// A byte string spells a number below 256 to the power of its length.
pub proof fn lemma_le_value_bound(bytes: Seq<u8>)
    ensures
        le_value(bytes) < byte_range(bytes.len()),
    decreases bytes.len(),
{
    if bytes.len() > 0 {
        lemma_le_value_bound(bytes.skip(1));
        let tail = le_value(bytes.skip(1));
        let range = byte_range((bytes.len() - 1) as nat);
        assert(bytes[0] as nat + 256 * tail < 256 * range) by (nonlinear_arith)
            requires
                tail < range,
                (bytes[0] as nat) < 256,
        ;
    }
}

/// Writing the number that a byte string spells, at the string's own width, gives the string.
pub proof fn lemma_le_bytes_of_value(bytes: Seq<u8>)
    ensures
        le_bytes(le_value(bytes), bytes.len()) == bytes,
    decreases bytes.len(),
{
    if bytes.len() > 0 {
        let tail = bytes.skip(1);
        lemma_le_bytes_of_value(tail);
        let value = le_value(bytes);
        assert(value % 256 == bytes[0] as nat && value / 256 == le_value(tail))
            by (nonlinear_arith)
            requires
                value == bytes[0] as nat + 256 * le_value(tail),
                (bytes[0] as nat) < 256,
        ;
        assert(le_bytes(value, bytes.len()) =~= bytes);
    } else {
        assert(le_bytes(le_value(bytes), 0) =~= bytes);
    }
}

/// What reading an eight-byte integer at `offset` yields: the value and the offset behind it.
pub open spec fn spec_decode_u64(bytes: Seq<u8>, offset: int) -> Result<(u64, int), DecodeError> {
    if 0 <= offset && offset + 8 <= bytes.len() {
        Ok((le_value(bytes.subrange(offset, offset + 8)) as u64, offset + 8))
    } else {
        Err(DecodeError::Malformed)
    }
}

/// What reading a four-byte length prefix at `offset` yields: the length and the offset behind
/// the prefix.
pub open spec fn spec_decode_length(bytes: Seq<u8>, offset: int) -> Result<(nat, int), DecodeError> {
    if 0 <= offset && offset + 4 <= bytes.len() {
        Ok((le_value(bytes.subrange(offset, offset + 4)), offset + 4))
    } else {
        Err(DecodeError::Malformed)
    }
}

/// What reading `width` raw bytes at `offset` yields.
pub open spec fn spec_decode_fixed(bytes: Seq<u8>, offset: int, width: nat) -> Result<
    (Seq<u8>, int),
    DecodeError,
> {
    if 0 <= offset && offset + width <= bytes.len() {
        Ok((bytes.subrange(offset, offset + width), offset + width))
    } else {
        Err(DecodeError::Malformed)
    }
}

/// The encoding of a byte string of variable length: its length in four bytes, then the bytes.
pub open spec fn spec_encode_bytes(body: Seq<u8>) -> Seq<u8> {
    le_bytes(body.len(), 4) + body
}

/// What reading a length-prefixed byte string at `offset` yields.
pub open spec fn spec_decode_bytes(bytes: Seq<u8>, offset: int) -> Result<
    (Seq<u8>, int),
    DecodeError,
> {
    match spec_decode_length(bytes, offset) {
        Err(e) => Err(e),
        Ok((len, start)) => if start + len <= bytes.len() {
            Ok((bytes.subrange(start, start + len), start + len))
        } else {
            Err(DecodeError::InvalidLength)
        },
    }
}

/// An eight-byte integer is read back from where its encoding stands.
pub proof fn lemma_decode_u64_of_encoded(bytes: Seq<u8>, offset: int, value: u64)
    requires
        0 <= offset,
        offset + 8 <= bytes.len(),
        bytes.subrange(offset, offset + 8) == le_bytes(value as nat, 8),
    ensures
        spec_decode_u64(bytes, offset) == Ok::<(u64, int), DecodeError>((value, offset + 8)),
{
    reveal_with_fuel(byte_range, 9);
    lemma_le_value_of_bytes(value as nat, 8);
}

/// A length is read back from where its four-byte prefix stands.
pub proof fn lemma_decode_length_of_encoded(bytes: Seq<u8>, offset: int, len: nat)
    requires
        0 <= offset,
        offset + 4 <= bytes.len(),
        len <= MAX_BODY_BYTES,
        bytes.subrange(offset, offset + 4) == le_bytes(len, 4),
    ensures
        spec_decode_length(bytes, offset) == Ok::<(nat, int), DecodeError>((len, offset + 4)),
{
    reveal_with_fuel(byte_range, 5);
    lemma_le_value_of_bytes(len, 4);
}

/// A byte string is read back from where its encoding stands.
pub proof fn lemma_decode_bytes_of_encoded(bytes: Seq<u8>, offset: int, body: Seq<u8>)
    requires
        0 <= offset,
        offset + 4 + body.len() <= bytes.len(),
        body.len() <= MAX_BODY_BYTES,
        bytes.subrange(offset, offset + 4 + body.len()) == spec_encode_bytes(body),
    ensures
        spec_decode_bytes(bytes, offset) == Ok::<(Seq<u8>, int), DecodeError>(
            (body, offset + 4 + body.len()),
        ),
{
    let encoded = spec_encode_bytes(body);
    lemma_le_bytes_len(body.len(), 4);
    assert(bytes.subrange(offset, offset + 4) =~= encoded.subrange(0, 4));
    assert(encoded.subrange(0, 4) =~= le_bytes(body.len(), 4));
    lemma_decode_length_of_encoded(bytes, offset, body.len());
    assert(bytes.subrange(offset + 4, offset + 4 + body.len()) =~= encoded.subrange(
        4,
        4 + body.len() as int,
    ));
    assert(encoded.subrange(4, 4 + body.len() as int) =~= body);
}

/// Cutting a buffer behind an integer leaves the integer readable; cutting it earlier leaves
/// an error.
pub proof fn lemma_decode_u64_of_prefix(bytes: Seq<u8>, offset: int, cut: int)
    requires
        0 <= cut <= bytes.len(),
        spec_decode_u64(bytes, offset) is Ok,
    ensures
        cut >= offset + 8 ==> spec_decode_u64(bytes.take(cut), offset) == spec_decode_u64(
            bytes,
            offset,
        ),
        cut < offset + 8 ==> spec_decode_u64(bytes.take(cut), offset) is Err,
{
    if cut >= offset + 8 {
        assert(bytes.take(cut).subrange(offset, offset + 8) =~= bytes.subrange(offset, offset + 8));
    }
}

/// Cutting a buffer behind a run of raw bytes leaves the run readable; cutting it earlier
/// leaves an error.
pub proof fn lemma_decode_fixed_of_prefix(bytes: Seq<u8>, offset: int, width: nat, cut: int)
    requires
        0 <= cut <= bytes.len(),
        spec_decode_fixed(bytes, offset, width) is Ok,
    ensures
        cut >= offset + width ==> spec_decode_fixed(bytes.take(cut), offset, width)
            == spec_decode_fixed(bytes, offset, width),
        cut < offset + width ==> spec_decode_fixed(bytes.take(cut), offset, width) is Err,
{
    if cut >= offset + width {
        assert(bytes.take(cut).subrange(offset, offset + width) =~= bytes.subrange(
            offset,
            offset + width,
        ));
    }
}

/// Cutting a buffer behind a length prefix leaves the prefix readable; cutting it earlier
/// leaves an error.
pub proof fn lemma_decode_length_of_prefix(bytes: Seq<u8>, offset: int, cut: int)
    requires
        0 <= cut <= bytes.len(),
        spec_decode_length(bytes, offset) is Ok,
    ensures
        cut >= offset + 4 ==> spec_decode_length(bytes.take(cut), offset) == spec_decode_length(
            bytes,
            offset,
        ),
        cut < offset + 4 ==> spec_decode_length(bytes.take(cut), offset) is Err,
{
    if cut >= offset + 4 {
        assert(bytes.take(cut).subrange(offset, offset + 4) =~= bytes.subrange(offset, offset + 4));
    }
}

/// Cutting a buffer behind an encoded byte string leaves the string readable; cutting it
/// earlier leaves an error.
pub proof fn lemma_decode_bytes_of_prefix(bytes: Seq<u8>, offset: int, cut: int)
    requires
        0 <= cut <= bytes.len(),
        spec_decode_bytes(bytes, offset) is Ok,
    ensures
        cut >= spec_decode_bytes(bytes, offset)->Ok_0.1 ==> spec_decode_bytes(
            bytes.take(cut),
            offset,
        ) == spec_decode_bytes(bytes, offset),
        cut < spec_decode_bytes(bytes, offset)->Ok_0.1 ==> spec_decode_bytes(
            bytes.take(cut),
            offset,
        ) is Err,
{
    lemma_decode_length_of_prefix(bytes, offset, cut);
    let (len, start) = spec_decode_length(bytes, offset)->Ok_0;
    if cut >= start + len {
        assert(bytes.take(cut).subrange(start, start + len) =~= bytes.subrange(start, start + len));
    }
}

/// `encode` of `ssz::Encode` on a `u64`: the eight bytes of the value, least significant first.
#[verifier::external_body]
fn ssz_encode_u64(value: u64) -> (bytes: Vec<u8>)
    ensures
        bytes@ == le_bytes(value as nat, 8),
{
    ssz::Encode::encode(&value)
}

/// `encode` of `ssz::Encode` on a `u32`: the four bytes of the value, least significant first.
#[verifier::external_body]
fn ssz_encode_u32(value: u32) -> (bytes: Vec<u8>)
    ensures
        bytes@ == le_bytes(value as nat, 4),
{
    ssz::Encode::encode(&value)
}

/// `decode` of `ssz::Decode` for `u64` on a byte slice: nothing when fewer than eight bytes are
/// there, else the number that the first eight spell, least significant first.
#[verifier::external_body]
fn ssz_decode_u64(bytes: &[u8]) -> (value: Option<u64>)
    ensures
        value is Some <==> bytes@.len() >= 8,
        value is Some ==> value->0 as nat == le_value(bytes@.subrange(0, 8)),
{
    let mut input: &[u8] = bytes;
    let value: Option<u64> = ssz::Decode::decode(&mut input);
    value
}

/// `decode` of `ssz::Decode` for `u32` on a byte slice: nothing when fewer than four bytes are
/// there, else the number that the first four spell, least significant first.
#[verifier::external_body]
fn ssz_decode_u32(bytes: &[u8]) -> (value: Option<u32>)
    ensures
        value is Some <==> bytes@.len() >= 4,
        value is Some ==> value->0 as nat == le_value(bytes@.subrange(0, 4)),
{
    let mut input: &[u8] = bytes;
    let value: Option<u32> = ssz::Decode::decode(&mut input);
    value
}

/// Encodes an integer in eight bytes, least significant first.
pub fn encode_u64(value: u64) -> (bytes: Vec<u8>)
    ensures
        bytes@ == le_bytes(value as nat, 8),
{
    ssz_encode_u64(value)
}

/// Reads an eight-byte integer at `offset`.
pub fn decode_u64(bytes: &[u8], offset: usize) -> (r: Result<(u64, usize), DecodeError>)
    ensures
        match r {
            Ok((value, next)) => spec_decode_u64(bytes@, offset as int) == Ok::<
                (u64, int),
                DecodeError,
            >((value, next as int)),
            Err(e) => spec_decode_u64(bytes@, offset as int) == Err::<(u64, int), DecodeError>(e),
        },
{
    if offset > bytes.len() || bytes.len() - offset < 8 {
        return Err(DecodeError::Malformed);
    }
    let window = vstd::slice::slice_subrange(bytes, offset, offset + 8);
    assert(window@.subrange(0, 8) =~= bytes@.subrange(offset as int, offset + 8));
    match ssz_decode_u64(window) {
        Some(value) => Ok((value, offset + 8)),
        None => Err(DecodeError::Malformed),
    }
}

/// Encodes the length of a body in four bytes, least significant first.
pub fn encode_length(len: usize) -> (bytes: Vec<u8>)
    requires
        len <= MAX_BODY_BYTES,
    ensures
        bytes@ == le_bytes(len as nat, 4),
{
    ssz_encode_u32(len as u32)
}

/// Reads a four-byte length prefix at `offset`.
pub fn decode_length(bytes: &[u8], offset: usize) -> (r: Result<(usize, usize), DecodeError>)
    ensures
        match r {
            Ok((len, next)) => spec_decode_length(bytes@, offset as int) == Ok::<
                (nat, int),
                DecodeError,
            >((len as nat, next as int)),
            Err(e) => spec_decode_length(bytes@, offset as int) == Err::<(nat, int), DecodeError>(
                e,
            ),
        },
        r matches Ok((len, _)) ==> len <= MAX_BODY_BYTES,
{
    if offset > bytes.len() || bytes.len() - offset < 4 {
        return Err(DecodeError::Malformed);
    }
    let window = vstd::slice::slice_subrange(bytes, offset, offset + 4);
    assert(window@.subrange(0, 4) =~= bytes@.subrange(offset as int, offset + 4));
    match ssz_decode_u32(window) {
        Some(len) => Ok((len as usize, offset + 4)),
        None => Err(DecodeError::Malformed),
    }
}

/// Reads `width` raw bytes at `offset`.
pub fn decode_fixed(bytes: &[u8], offset: usize, width: usize) -> (r: Result<
    (Vec<u8>, usize),
    DecodeError,
>)
    ensures
        match r {
            Ok((body, next)) => spec_decode_fixed(bytes@, offset as int, width as nat) == Ok::<
                (Seq<u8>, int),
                DecodeError,
            >((body@, next as int)),
            Err(e) => spec_decode_fixed(bytes@, offset as int, width as nat) == Err::<
                (Seq<u8>, int),
                DecodeError,
            >(e),
        },
{
    if offset > bytes.len() || bytes.len() - offset < width {
        return Err(DecodeError::Malformed);
    }
    let body = vstd::slice::slice_to_vec(vstd::slice::slice_subrange(bytes, offset, offset + width));
    Ok((body, offset + width))
}

/// Encodes a byte string of variable length: its length in four bytes, then the bytes.
pub fn encode_bytes(body: &[u8]) -> (bytes: Vec<u8>)
    requires
        body@.len() <= MAX_BODY_BYTES,
    ensures
        bytes@ == spec_encode_bytes(body@),
{
    let mut bytes = encode_length(body.len());
    let mut tail = vstd::slice::slice_to_vec(body);
    bytes.append(&mut tail);
    bytes
}

/// Reads a length-prefixed byte string at `offset`.
pub fn decode_bytes(bytes: &[u8], offset: usize) -> (r: Result<(Vec<u8>, usize), DecodeError>)
    ensures
        match r {
            Ok((body, next)) => spec_decode_bytes(bytes@, offset as int) == Ok::<
                (Seq<u8>, int),
                DecodeError,
            >((body@, next as int)),
            Err(e) => spec_decode_bytes(bytes@, offset as int) == Err::<
                (Seq<u8>, int),
                DecodeError,
            >(e),
        },
        r matches Ok((body, _)) ==> body@.len() <= MAX_BODY_BYTES,
{
    match decode_length(bytes, offset) {
        Err(e) => Err(e),
        Ok((len, start)) => {
            if bytes.len() - start < len {
                return Err(DecodeError::InvalidLength);
            }
            let body = vstd::slice::slice_to_vec(
                vstd::slice::slice_subrange(bytes, start, start + len),
            );
            Ok((body, start + len))
        },
    }
}

} // verus!
