//! Hash tree roots: 32-byte digests that follow the structure of a value.
//!
//! A value is cut into 32-byte chunks. The chunk list is padded with zero chunks to a power of
//! two and reduced layer by layer, each pair of neighbours giving the SHA-256 digest of their
//! concatenation, until one chunk is left. A value of variable length has its length mixed in.

use crate::codec::{decode_fixed, le_bytes, spec_decode_fixed, DecodeError};
use vstd::prelude::*;

verus! {

/// A 32-byte digest, or one chunk of a hash tree. Its view is the sequence of its bytes.
#[derive(Debug, Clone, Copy, PartialEq, Eq)]
pub struct Hash256 {
    pub bytes: [u8; 32],
}

impl View for Hash256 {
    type V = Seq<u8>;

    open spec fn view(&self) -> Seq<u8> {
        self.bytes@
    }
}

/// The views of a list of chunks.
pub open spec fn chunk_views(chunks: Seq<Hash256>) -> Seq<Seq<u8>> {
    Seq::new(chunks.len(), |i: int| chunks[i]@)
}

/// The SHA-256 digest of a byte string.
pub uninterp spec fn sha256(input: Seq<u8>) -> [u8; 32];

/// `Sha256::digest` of the `sha2` crate: the SHA-256 digest of the input.
#[verifier::external_body]
fn sha256_digest(input: &[u8]) -> (digest: Hash256)
    ensures
        digest.bytes == sha256(input@),
{
    let output = <sha2::Sha256 as sha2::Digest>::digest(input);
    Hash256 { bytes: output.into() }
}

/// The chunk of 32 zero bytes.
pub open spec fn zero_chunk() -> Seq<u8> {
    Seq::new(32, |k: int| 0u8)
}

/// The parent of two neighbouring chunks: the digest of the left one followed by the right one.
pub open spec fn hash_pair(left: Seq<u8>, right: Seq<u8>) -> Seq<u8> {
    sha256(left + right)@
}

/// The layer above `layer`: the parents of its pairs of neighbours.
pub open spec fn layer_up(layer: Seq<Seq<u8>>) -> Seq<Seq<u8>> {
    Seq::new(layer.len() / 2, |i: int| hash_pair(layer[2 * i], layer[2 * i + 1]))
}

/// The one chunk left when a layer is reduced until it can be reduced no more. The layer is
/// meant to hold a power of two of chunks.
pub open spec fn tree_root(layer: Seq<Seq<u8>>) -> Seq<u8>
    decreases layer.len(),
{
    if layer.len() == 0 {
        zero_chunk()
    } else if layer.len() == 1 {
        layer[0]
    } else {
        tree_root(layer_up(layer))
    }
}

/// The least power of two that is at least `n`, and at least one.
pub open spec fn next_pow2(n: nat) -> nat
    decreases n,
{
    if n <= 1 {
        1
    } else {
        2 * next_pow2((n + 1) / 2)
    }
}

/// `layer`, filled up with copies of `filler` to `width` chunks.
pub open spec fn pad_with(layer: Seq<Seq<u8>>, filler: Seq<u8>, width: nat) -> Seq<Seq<u8>> {
    layer + Seq::new((width - layer.len()) as nat, |i: int| filler)
}

/// The root of a chunk list: the list is padded with zero chunks to the next power of two and
/// reduced to one chunk.
pub open spec fn merkle_root(chunks: Seq<Seq<u8>>) -> Seq<u8> {
    tree_root(pad_with(chunks, zero_chunk(), next_pow2(chunks.len())))
}

/// Number of chunks that hold `n` bytes.
pub open spec fn chunk_count(n: nat) -> nat {
    (n + 31) / 32
}

/// Byte `i` of a byte string, zero beyond its end.
pub open spec fn byte_at(bytes: Seq<u8>, i: int) -> u8 {
    if 0 <= i < bytes.len() {
        bytes[i]
    } else {
        0u8
    }
}

/// The chunk list of a byte string: the bytes in order, 32 to a chunk, the last chunk filled
/// up with zeros.
pub open spec fn chunks_of(bytes: Seq<u8>) -> Seq<Seq<u8>> {
    Seq::new(
        chunk_count(bytes.len()),
        |i: int| Seq::new(32, |k: int| byte_at(bytes, 32 * i + k)),
    )
}

/// The root of a value of variable length: the digest of the root of its contents followed by
/// its length in 32 bytes, least significant first.
pub open spec fn mixed_in_length(root: Seq<u8>, length: nat) -> Seq<u8> {
    sha256(root + le_bytes(length, 32))@
}

/// The hash tree root of an eight-byte integer: its bytes, filled up to one chunk.
pub open spec fn u64_root(value: u64) -> Seq<u8> {
    merkle_root(chunks_of(le_bytes(value as nat, 8)))
}

/// The hash tree root of a boolean: one chunk whose first byte is one or zero.
pub open spec fn bool_root(value: bool) -> Seq<u8> {
    merkle_root(chunks_of(seq![if value { 1u8 } else { 0u8 }]))
}

/// The hash tree root of a byte string of variable length.
pub open spec fn bytes_root(bytes: Seq<u8>) -> Seq<u8> {
    mixed_in_length(merkle_root(chunks_of(bytes)), bytes.len())
}

/// What is left of `layer` one level up, when the chunks beyond its end count as `filler`.
pub open spec fn reduce_layer(layer: Seq<Seq<u8>>, filler: Seq<u8>) -> Seq<Seq<u8>> {
    Seq::new(
        (layer.len() + 1) / 2,
        |i: int|
            hash_pair(
                layer[2 * i],
                if 2 * i + 1 < layer.len() {
                    layer[2 * i + 1]
                } else {
                    filler
                },
            ),
    )
}

/// `next_pow2(n)` is at least `n` and at least one, and below `2 * n` for a positive `n`.
pub proof fn lemma_next_pow2_bounds(n: nat)
    ensures
        next_pow2(n) >= n,
        next_pow2(n) >= 1,
        n >= 1 ==> next_pow2(n) < 2 * n,
    decreases n,
{
    if n > 1 {
        lemma_next_pow2_bounds((n + 1) / 2);
    }
}

/// Whether `n` is a power of two.
pub open spec fn is_power_of_two(n: nat) -> bool
    decreases n,
{
    n == 1 || (n >= 2 && n % 2 == 0 && is_power_of_two(n / 2))
}

/// `next_pow2(n)` is a power of two.
pub proof fn lemma_next_pow2_is_power_of_two(n: nat)
    ensures
        is_power_of_two(next_pow2(n)),
    decreases n,
{
    if n > 1 {
        lemma_next_pow2_is_power_of_two((n + 1) / 2);
        lemma_next_pow2_bounds((n + 1) / 2);
    }
}

/// No power of two that is at least `n` is below `next_pow2(n)`.
pub proof fn lemma_next_pow2_is_least(n: nat, power: nat)
    requires
        is_power_of_two(power),
        power >= n,
    ensures
        power >= next_pow2(n),
    decreases n,
{
    if n > 1 {
        lemma_next_pow2_is_least((n + 1) / 2, power / 2);
    }
}

/// The root of a layer of a power of two of chunks, two or more, is the parent of the roots of
/// its two halves.
pub proof fn lemma_tree_root_of_halves(left: Seq<Seq<u8>>, right: Seq<Seq<u8>>)
    requires
        left.len() == right.len(),
        is_power_of_two(left.len()),
    ensures
        tree_root(left + right) == hash_pair(tree_root(left), tree_root(right)),
    decreases left.len(),
{
    let layer = left + right;
    if left.len() == 1 {
        assert(layer_up(layer) =~= seq![hash_pair(left[0], right[0])]);
        reveal_with_fuel(tree_root, 2);
    } else {
        assert(layer_up(layer) =~= layer_up(left) + layer_up(right));
        lemma_tree_root_of_halves(layer_up(left), layer_up(right));
    }
}

/// One level up, a padded layer is the reduced layer, padded with the parent of two fillers.
pub proof fn lemma_layer_up_of_padded(layer: Seq<Seq<u8>>, filler: Seq<u8>)
    requires
        layer.len() >= 2,
    ensures
        layer_up(pad_with(layer, filler, next_pow2(layer.len()))) == pad_with(
            reduce_layer(layer, filler),
            hash_pair(filler, filler),
            next_pow2((layer.len() + 1) / 2),
        ),
{
    let half = (layer.len() + 1) / 2;
    lemma_next_pow2_bounds(layer.len());
    lemma_next_pow2_bounds(half);
    let above = layer_up(pad_with(layer, filler, next_pow2(layer.len())));
    let padded = pad_with(
        reduce_layer(layer, filler),
        hash_pair(filler, filler),
        next_pow2(half),
    );
    assert(above.len() == padded.len());
    assert forall|i: int| 0 <= i < above.len() implies above[i] == padded[i] by {
        if 2 * i + 1 < layer.len() {
        } else if 2 * i < layer.len() {
        } else {
        }
    }
    assert(above =~= padded);
}

/// The one chunk left of a layer of 32-byte chunks has 32 bytes.
pub proof fn lemma_tree_root_len(layer: Seq<Seq<u8>>)
    requires
        layer.len() == 1 ==> layer[0].len() == 32,
    ensures
        tree_root(layer).len() == 32,
    decreases layer.len(),
{
    if layer.len() >= 2 {
        lemma_tree_root_len(layer_up(layer));
    }
}

/// The root of two or more chunks has 32 bytes, and so has the root of 32-byte chunks.
pub proof fn lemma_merkle_root_len(chunks: Seq<Seq<u8>>)
    requires
        chunks.len() == 1 ==> chunks[0].len() == 32,
    ensures
        merkle_root(chunks).len() == 32,
{
    lemma_next_pow2_bounds(chunks.len());
    let padded = pad_with(chunks, zero_chunk(), next_pow2(chunks.len()));
    if chunks.len() == 1 {
        assert(padded =~= chunks);
    }
    lemma_tree_root_len(padded);
}

/// The root of a list of one chunk is the chunk.
pub proof fn lemma_one_chunk_root(chunk: Seq<u8>)
    ensures
        merkle_root(seq![chunk]) == chunk,
{
    assert(pad_with(seq![chunk], zero_chunk(), 1) =~= seq![chunk]);
}

/// The root of the chunk list of exactly 32 bytes is those bytes.
pub proof fn lemma_single_chunk_root(bytes: Seq<u8>)
    requires
        bytes.len() == 32,
    ensures
        merkle_root(chunks_of(bytes)) == bytes,
{
    assert(chunks_of(bytes)[0] =~= bytes);
    assert(chunks_of(bytes) =~= seq![bytes]);
    lemma_one_chunk_root(bytes);
}

/// The root of two chunks is the digest of the first followed by the second.
pub proof fn lemma_two_chunk_root(left: Seq<u8>, right: Seq<u8>)
    ensures
        merkle_root(seq![left, right]) == hash_pair(left, right),
{
    let chunks = seq![left, right];
    reveal_with_fuel(next_pow2, 2);
    assert(pad_with(chunks, zero_chunk(), 2) =~= chunks);
    assert(layer_up(chunks) =~= seq![hash_pair(left, right)]);
    reveal_with_fuel(tree_root, 2);
}

/// The root of four chunks is the parent of the parents of its two halves.
pub proof fn lemma_four_chunk_root(first: Seq<u8>, second: Seq<u8>, third: Seq<u8>, fourth: Seq<u8>)
    ensures
        merkle_root(seq![first, second, third, fourth]) == hash_pair(
            hash_pair(first, second),
            hash_pair(third, fourth),
        ),
{
    let chunks = seq![first, second, third, fourth];
    let above = seq![hash_pair(first, second), hash_pair(third, fourth)];
    reveal_with_fuel(next_pow2, 3);
    assert(pad_with(chunks, zero_chunk(), 4) =~= chunks);
    assert(layer_up(chunks) =~= above);
    assert(layer_up(above) =~= seq![hash_pair(above[0], above[1])]);
    reveal_with_fuel(tree_root, 3);
}

/// The root of a boolean is one chunk: a byte that is one or zero, then 31 zero bytes.
pub proof fn lemma_bool_root(value: bool)
    ensures
        bool_root(value) == seq![if value { 1u8 } else { 0u8 }] + Seq::new(31, |k: int| 0u8),
{
    let bytes = seq![if value { 1u8 } else { 0u8 }];
    let chunk = bytes + Seq::new(31, |k: int| 0u8);
    assert(chunks_of(bytes)[0] =~= chunk);
    assert(chunks_of(bytes) =~= seq![chunk]);
    lemma_one_chunk_root(chunk);
}

/// The root of an eight-byte integer is one chunk: its eight bytes, least significant first,
/// then 24 zero bytes.
pub proof fn lemma_u64_root(value: u64)
    ensures
        u64_root(value) == le_bytes(value as nat, 8) + Seq::new(24, |k: int| 0u8),
{
    let bytes = le_bytes(value as nat, 8);
    let chunk = bytes + Seq::new(24, |k: int| 0u8);
    crate::codec::lemma_le_bytes_len(value as nat, 8);
    assert(chunks_of(bytes)[0] =~= chunk);
    assert(chunks_of(bytes) =~= seq![chunk]);
    lemma_one_chunk_root(chunk);
}

/// The parent of two chunks.
pub fn hash_concat(left: &Hash256, right: &Hash256) -> (parent: Hash256)
    ensures
        parent@ == hash_pair(left@, right@),
{
    let mut buffer = vstd::slice::slice_to_vec(left.bytes.as_slice());
    let mut tail = vstd::slice::slice_to_vec(right.bytes.as_slice());
    buffer.append(&mut tail);
    sha256_digest(buffer.as_slice())
}

impl Hash256 {
    /// The digest made of the given bytes, if they are 32.
    pub fn from_slice(bytes: &[u8]) -> (r: Option<Hash256>)
        ensures
            r is Some <==> bytes@.len() == 32,
            r is Some ==> r->0@ == bytes@,
    {
        if bytes.len() != 32 {
            return None;
        }
        let mut array = [0u8; 32];
        let mut k: usize = 0;
        while k < 32
            invariant
                k <= 32,
                bytes@.len() == 32,
                forall|j: int| 0 <= j < k ==> array@[j] == bytes@[j],
            decreases 32 - k,
        {
            array[k] = bytes[k];
            k += 1;
        }
        let digest = Hash256 { bytes: array };
        assert(digest@ =~= bytes@);
        Some(digest)
    }

    /// The 32 bytes of the digest.
    pub fn to_vec(&self) -> (bytes: Vec<u8>)
        ensures
            bytes@ == self@,
    {
        vstd::slice::slice_to_vec(self.bytes.as_slice())
    }

    /// Reads a digest at `offset`.
    pub fn decode(bytes: &[u8], offset: usize) -> (r: Result<(Hash256, usize), DecodeError>)
        ensures
            match r {
                Ok((digest, next)) => spec_decode_fixed(bytes@, offset as int, 32) == Ok::<
                    (Seq<u8>, int),
                    DecodeError,
                >((digest@, next as int)),
                Err(e) => spec_decode_fixed(bytes@, offset as int, 32) == Err::<
                    (Seq<u8>, int),
                    DecodeError,
                >(e),
            },
    {
        match decode_fixed(bytes, offset, 32) {
            Err(e) => Err(e),
            Ok((body, next)) => match Hash256::from_slice(body.as_slice()) {
                Some(digest) => Ok((digest, next)),
                None => Err(DecodeError::Malformed),
            },
        }
    }

    /// The hash tree root of the digest: the digest itself.
    pub fn hash_tree_root(&self) -> (root: Hash256)
        ensures
            root@ == self@,
            root@ == merkle_root(chunks_of(self@)),
    {
        proof {
            lemma_single_chunk_root(self@);
        }
        *self
    }

    /// The chunk of 32 zero bytes.
    pub fn zero() -> (chunk: Hash256)
        ensures
            chunk@ == zero_chunk(),
    {
        let chunk = Hash256 { bytes: [0u8; 32] };
        assert(chunk@ =~= zero_chunk());
        chunk
    }
}

/// The root of a chunk list.
pub fn merkleize(chunks: Vec<Hash256>) -> (root: Hash256)
    ensures
        root@ == merkle_root(chunk_views(chunks@)),
{
    let ghost target = merkle_root(chunk_views(chunks@));
    let mut filler = Hash256::zero();
    if chunks.len() == 0 {
        assert(pad_with(chunk_views(chunks@), zero_chunk(), 1) =~= seq![zero_chunk()]);
        return filler;
    }
    let mut layer = chunks;
    while layer.len() > 1
        invariant
            layer@.len() >= 1,
            tree_root(pad_with(chunk_views(layer@), filler@, next_pow2(layer@.len()))) == target,
        decreases layer@.len(),
    {
        let n = layer.len();
        let half = n / 2 + n % 2;
        let mut next: Vec<Hash256> = Vec::new();
        let mut m: usize = 0;
        while m < half
            invariant
                m <= half,
                n == layer@.len(),
                half == (n + 1) / 2,
                next@.len() == m,
                chunk_views(next@) == reduce_layer(chunk_views(layer@), filler@).take(m as int),
            decreases half - m,
        {
            let i = 2 * m;
            let parent = if n - i >= 2 {
                hash_concat(&layer[i], &layer[i + 1])
            } else {
                hash_concat(&layer[i], &filler)
            };
            next.push(parent);
            m += 1;
            assert(chunk_views(next@) =~= reduce_layer(chunk_views(layer@), filler@).take(
                m as int,
            ));
        }
        proof {
            let views = chunk_views(layer@);
            lemma_layer_up_of_padded(views, filler@);
            lemma_next_pow2_bounds(views.len());
            assert(chunk_views(next@) =~= reduce_layer(views, filler@));
        }
        filler = hash_concat(&filler, &filler);
        layer = next;
    }
    proof {
        assert(pad_with(chunk_views(layer@), filler@, 1) =~= seq![layer@[0]@]);
    }
    layer[0]
}

/// The chunk list of a byte string.
pub fn pack(bytes: &[u8]) -> (chunks: Vec<Hash256>)
    ensures
        chunk_views(chunks@) == chunks_of(bytes@),
{
    let len = bytes.len();
    let count = len / 32 + (if len % 32 == 0 { 0 } else { 1 });
    let mut chunks: Vec<Hash256> = Vec::new();
    let mut i: usize = 0;
    while i < count
        invariant
            i <= count,
            len == bytes@.len(),
            count == chunk_count(len as nat),
            chunks@.len() == i,
            chunk_views(chunks@) == chunks_of(bytes@).take(i as int),
        decreases count - i,
    {
        let start = 32 * i;
        let remaining = len - start;
        let mut array = [0u8; 32];
        let mut k: usize = 0;
        while k < 32
            invariant
                k <= 32,
                start == 32 * i,
                remaining == len - start,
                len == bytes@.len(),
                forall|j: int| 0 <= j < k ==> array@[j] == byte_at(bytes@, start + j),
                forall|j: int| k <= j < 32 ==> array@[j] == 0u8,
            decreases 32 - k,
        {
            if k < remaining {
                array[k] = bytes[start + k];
            }
            k += 1;
        }
        let chunk = Hash256 { bytes: array };
        chunks.push(chunk);
        proof {
            assert(chunk@ =~= chunks_of(bytes@)[i as int]);
        }
        i += 1;
        assert(chunk_views(chunks@) =~= chunks_of(bytes@).take(i as int));
    }
    assert(chunk_views(chunks@) =~= chunks_of(bytes@));
    chunks
}

/// Widening a little-endian number that fits its width appends zero bytes.
pub proof fn lemma_le_bytes_widen(value: nat, width: nat, extra: nat)
    requires
        value < crate::codec::byte_range(width),
    ensures
        le_bytes(value, width + extra) == le_bytes(value, width) + Seq::new(extra, |i: int| 0u8),
    decreases width + extra,
{
    let wide = le_bytes(value, width + extra);
    let narrow = le_bytes(value, width) + Seq::new(extra, |i: int| 0u8);
    crate::codec::lemma_le_bytes_len(value, width + extra);
    crate::codec::lemma_le_bytes_len(value, width);
    if width + extra == 0 {
        assert(wide =~= narrow);
    } else if width == 0 {
        lemma_le_bytes_widen(0, 0, (extra - 1) as nat);
        assert(le_bytes(0, (extra - 1) as nat) =~= Seq::new((extra - 1) as nat, |i: int| 0u8));
        assert(wide =~= narrow);
    } else {
        assert(value / 256 < crate::codec::byte_range((width - 1) as nat)) by (nonlinear_arith)
            requires
                value < 256 * crate::codec::byte_range((width - 1) as nat),
        ;
        lemma_le_bytes_widen(value / 256, (width - 1) as nat, extra);
        assert((width + extra - 1) as nat == (width - 1) as nat + extra);
        assert(wide =~= narrow);
    }
}

/// Mixes a length into a root.
pub fn mix_in_length(root: &Hash256, length: u64) -> (mixed: Hash256)
    ensures
        mixed@ == mixed_in_length(root@, length as nat),
{
    let mut buffer = root.to_vec();
    let mut low = crate::codec::encode_u64(length);
    buffer.append(&mut low);
    let mut high: Vec<u8> = vec![0u8; 24];
    buffer.append(&mut high);
    proof {
        reveal_with_fuel(crate::codec::byte_range, 9);
        lemma_le_bytes_widen(length as nat, 8, 24);
        assert(buffer@ =~= root@ + le_bytes(length as nat, 32));
    }
    sha256_digest(buffer.as_slice())
}

/// The hash tree root of an eight-byte integer.
pub fn hash_tree_root_u64(value: u64) -> (root: Hash256)
    ensures
        root@ == u64_root(value),
{
    let bytes = crate::codec::encode_u64(value);
    merkleize(pack(bytes.as_slice()))
}

/// The hash tree root of a boolean.
pub fn hash_tree_root_bool(value: bool) -> (root: Hash256)
    ensures
        root@ == bool_root(value),
{
    let mut bytes: Vec<u8> = Vec::new();
    bytes.push(if value { 1u8 } else { 0u8 });
    assert(bytes@ =~= seq![if value { 1u8 } else { 0u8 }]);
    merkleize(pack(bytes.as_slice()))
}

/// The hash tree root of a byte string of variable length.
pub fn hash_tree_root_bytes(bytes: &[u8]) -> (root: Hash256)
    ensures
        root@ == bytes_root(bytes@),
{
    let contents = merkleize(pack(bytes));
    mix_in_length(&contents, bytes.len() as u64)
}

} // verus!
