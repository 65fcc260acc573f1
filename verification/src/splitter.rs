//! Cutting bytes into chunks of a fixed width, and packing chunks back into bytes.

use crate::error::CodecError;
use crate::width::{
    bit_mask, chunks_per_byte, generate_bit_mask, is_valid_width, lemma_bit_mask_values,
    valid_width,
};
use vstd::arithmetic::div_mod::{lemma_div_is_ordered, lemma_fundamental_div_mod_converse};
use vstd::arithmetic::power2::{lemma2_to64, pow2};
use vstd::prelude::*;

verus! {

/// Chunk `j` of a byte: the `w` bits that start at bit `j * w`, moved down to
/// the low end.
pub open spec fn chunk_of(byte: u8, j: int, w: u8) -> u8 {
    (byte >> ((j * w) as u8)) & (bit_mask(w) as u8)
}

/// The chunks of one byte, lowest bits first.
pub open spec fn byte_chunks(byte: u8, w: u8) -> Seq<u8> {
    Seq::new(chunks_per_byte(w) as nat, |j: int| chunk_of(byte, j, w))
}

/// The chunk sequence of a byte sequence: every byte gives
/// `chunks_per_byte(w)` chunks, lowest bits first, and the bytes follow each
/// other in order.
pub open spec fn chunk_sequence(bytes: Seq<u8>, w: u8) -> Seq<u8> {
    Seq::new(
        (bytes.len() * chunks_per_byte(w)) as nat,
        |k: int| chunk_of(bytes[k / chunks_per_byte(w)], k % chunks_per_byte(w), w),
    )
}

/// The byte that a group of chunks packs into: chunk `j` of the group is
/// shifted up to bit `j * w`, and the shifted chunks are OR-ed together.
pub open spec fn pack(group: Seq<u8>, w: u8) -> u8
    decreases group.len(),
{
    if group.len() == 0 {
        0
    } else {
        pack(group.drop_last(), w) | (group.last() << (((group.len() - 1) * w) as u8))
    }
}

/// How many bytes `n` chunks pack into: a last group that is not full still
/// gives a byte.
pub open spec fn byte_count(n: int, w: u8) -> int {
    (n + chunks_per_byte(w) - 1) / chunks_per_byte(w)
}

/// Group `i` of a chunk sequence: the chunks from `i * chunks_per_byte(w)` on,
/// `chunks_per_byte(w)` of them or, at the end, as many as are left.
pub open spec fn group_of(chunks: Seq<u8>, i: int, w: u8) -> Seq<u8> {
    let c = chunks_per_byte(w);
    let end = if (i + 1) * c <= chunks.len() {
        (i + 1) * c
    } else {
        chunks.len() as int
    };
    chunks.subrange(i * c, end)
}

/// The bytes that a chunk sequence packs into: byte `i` packs group `i`.
pub open spec fn reassembled(chunks: Seq<u8>, w: u8) -> Seq<u8> {
    Seq::new(byte_count(chunks.len() as int, w) as nat, |i: int| pack(group_of(chunks, i, w), w))
}

/// Place `j` of group `i` is position `i * c + j`.
proof fn lemma_group_index(i: int, j: int, c: int)
    requires
        0 <= j < c,
    ensures
        (i * c + j) / c == i,
        (i * c + j) % c == j,
{
    lemma_fundamental_div_mod_converse(i * c + j, c, i, j);
}

/// What holds of a valid width and a bit position inside a byte.
proof fn lemma_bit_position(w: u8, j: int)
    requires
        valid_width(w),
        0 <= j,
        j * w < 8,
    ensures
        0 < chunks_per_byte(w) <= 8,
        chunks_per_byte(w) * w == 8,
        j < chunks_per_byte(w),
        (j + 1) * w == j * w + w,
        j * w + w <= 8,
        j * w + w == 8 <==> j + 1 == chunks_per_byte(w),
{
    let c = chunks_per_byte(w);
    assert(c * w == 8 && 0 < c <= 8);
    assert((j + 1) * w == j * w + w) by (nonlinear_arith);
    assert(j < c) by (nonlinear_arith)
        requires
            j * w < 8,
            c * w == 8,
            w > 0,
    ;
    assert((j + 1) * w <= c * w && ((j + 1) * w == c * w <==> j + 1 == c)) by (nonlinear_arith)
        requires
            j < c,
            w > 0,
    ;
}

/// A chunk never exceeds the mask of its width.
pub proof fn lemma_chunk_in_range(byte: u8, j: int, w: u8)
    requires
        valid_width(w),
    ensures
        chunk_of(byte, j, w) <= bit_mask(w),
{
    lemma_bit_mask_values();
    let shifted: u8 = byte >> ((j * w) as u8);
    let m: u8 = bit_mask(w) as u8;
    assert(shifted & m <= m) by (bit_vector);
}

/// A chunk read as a number: the byte divided by `2^(j * w)`, modulo `2^w`.
pub proof fn lemma_chunk_of_is_div_mod(byte: u8, j: int, w: u8)
    requires
        valid_width(w),
        0 <= j < chunks_per_byte(w),
    ensures
        chunk_of(byte, j, w) == (byte as int / pow2((j * w) as nat) as int) % pow2(w as nat) as int,
{
    lemma_bit_mask_values();
    lemma2_to64();
    lemma_bit_position(w, 0);
    assert(0 <= j * w < 8) by (nonlinear_arith)
        requires
            0 <= j < chunks_per_byte(w),
            chunks_per_byte(w) * w == 8,
            w > 0,
    ;
    let s: u8 = (j * w) as u8;
    let m: u8 = bit_mask(w) as u8;
    let p: u16 = pow2(s as nat) as u16;
    let q: u16 = pow2(w as nat) as u16;
    assert(p == 1u16 << s) by {
        assert(1u16 << 0u8 == 1 && 1u16 << 1u8 == 2 && 1u16 << 2u8 == 4 && 1u16 << 3u8 == 8 && 1u16
            << 4u8 == 16 && 1u16 << 5u8 == 32 && 1u16 << 6u8 == 64 && 1u16 << 7u8 == 128)
            by (bit_vector);
    }
    assert((byte >> s) & m == (byte as u16 / p) % q) by (bit_vector)
        requires
            s < 8,
            p == 1u16 << s,
            q == m + 1,
            m == 1 || m == 3 || m == 15 || m == 255,
    ;
}

/// The first `k` chunks of a byte pack into its low `k * w` bits: together
/// with the bits above them they make up the byte.
proof fn lemma_pack_prefix(byte: u8, w: u8, k: int)
    requires
        valid_width(w),
        0 <= k <= chunks_per_byte(w),
    ensures
        ({
            let s = (k * w) as u8;
            pack(byte_chunks(byte, w).take(k), w) | ((byte >> s) << s) == byte
        }),
    decreases k,
{
    let chunks = byte_chunks(byte, w);
    if k == 0 {
        assert((byte >> 0u8) << 0u8 == byte) by (bit_vector);
        assert(0u8 | byte == byte) by (bit_vector);
    } else {
        lemma_pack_prefix(byte, w, k - 1);
        lemma_bit_mask_values();
        assert((k - 1) * w < 8 && (k - 1) * w + w == k * w) by (nonlinear_arith)
            requires
                0 < k <= chunks_per_byte(w),
                chunks_per_byte(w) * w == 8,
                w > 0,
        ;
        assert(chunks.take(k).drop_last() =~= chunks.take(k - 1));
        let below: u8 = pack(chunks.take(k - 1), w);
        let s: u8 = ((k - 1) * w) as u8;
        let t: u8 = (k * w) as u8;
        let m: u8 = bit_mask(w) as u8;
        assert((below | (((byte >> s) & m) << s)) | ((byte >> t) << t) == byte) by (bit_vector)
            requires
                below | ((byte >> s) << s) == byte,
                t == s + w,
                t <= 8,
                (w == 1 && m == 1) || (w == 2 && m == 3) || (w == 4 && m == 15) || (w == 8 && m
                    == 255),
        ;
    }
}

/// The chunks of a byte pack back into that byte.
pub proof fn lemma_pack_byte_chunks(byte: u8, w: u8)
    requires
        valid_width(w),
    ensures
        pack(byte_chunks(byte, w), w) == byte,
{
    let chunks = byte_chunks(byte, w);
    lemma_bit_position(w, 0);
    lemma_pack_prefix(byte, w, chunks_per_byte(w));
    assert(chunks.take(chunks_per_byte(w)) =~= chunks);
    let packed: u8 = pack(chunks, w);
    assert(packed | ((byte >> 8u8) << 8u8) == packed) by (bit_vector);
}

/// A group that is not full packs into a byte whose bits above the chunks
/// supplied are zero, as long as every chunk fits under the mask.
pub proof fn lemma_pack_upper_bits_zero(group: Seq<u8>, w: u8)
    requires
        valid_width(w),
        group.len() <= chunks_per_byte(w),
        forall|j: int| 0 <= j < group.len() ==> #[trigger] group[j] <= bit_mask(w),
    ensures
        pack(group, w) >> ((group.len() * w) as u8) == 0,
    decreases group.len(),
{
    if group.len() == 0 {
        assert(0u8 >> 0u8 == 0u8) by (bit_vector);
    } else {
        let k = group.len() as int;
        lemma_pack_upper_bits_zero(group.drop_last(), w);
        lemma_bit_mask_values();
        lemma_bit_position(w, 0);
        assert((k - 1) * w < 8 && (k - 1) * w + w == k * w) by (nonlinear_arith)
            requires
                0 < k <= chunks_per_byte(w),
                chunks_per_byte(w) * w == 8,
                w > 0,
        ;
        let below: u8 = pack(group.drop_last(), w);
        let last: u8 = group.last();
        let s: u8 = ((k - 1) * w) as u8;
        let t: u8 = (k * w) as u8;
        let m: u8 = bit_mask(w) as u8;
        assert((below | (last << s)) >> t == 0) by (bit_vector)
            requires
                below >> s == 0,
                last <= m,
                t == s + w,
                t <= 8,
                (w == 1 && m == 1) || (w == 2 && m == 3) || (w == 4 && m == 15) || (w == 8 && m
                    == 255),
        ;
    }
}

/// Where a chunk sequence starts with the chunk sequence of `bytes`, the bytes
/// that it packs into start with `bytes`.
pub proof fn lemma_reassembled_prefix(chunks: Seq<u8>, bytes: Seq<u8>, w: u8)
    requires
        valid_width(w),
        chunk_sequence(bytes, w).len() <= chunks.len(),
        forall|k: int|
            0 <= k < chunk_sequence(bytes, w).len() ==> chunks[k] == chunk_sequence(bytes, w)[k],
    ensures
        bytes.len() <= reassembled(chunks, w).len(),
        reassembled(chunks, w).take(bytes.len() as int) == bytes,
{
    let c = chunks_per_byte(w);
    let n = bytes.len() as int;
    lemma_bit_position(w, 0);
    lemma_group_index(n, c - 1, c);
    lemma_div_is_ordered(n * c + c - 1, chunks.len() + c - 1, c);
    assert forall|i: int| 0 <= i < n implies reassembled(chunks, w)[i] == bytes[i] by {
        assert((i + 1) * c == i * c + c && (i + 1) * c <= n * c) by (nonlinear_arith)
            requires
                0 <= i < n,
                0 < c,
        ;
        assert forall|j: int| 0 <= j < c implies chunks[i * c + j] == chunk_of(bytes[i], j, w) by {
            lemma_group_index(i, j, c);
        }
        assert(group_of(chunks, i, w) =~= byte_chunks(bytes[i], w));
        lemma_pack_byte_chunks(bytes[i], w);
    }
    assert(reassembled(chunks, w).take(n) =~= bytes);
}

/// Cutting bytes into chunks and packing the chunks again gives the bytes
/// back, whatever the width.
pub proof fn lemma_split_then_reassemble(bytes: Seq<u8>, w: u8)
    requires
        valid_width(w),
    ensures
        reassembled(chunk_sequence(bytes, w), w) == bytes,
{
    let c = chunks_per_byte(w);
    let n = bytes.len() as int;
    lemma_bit_position(w, 0);
    lemma_reassembled_prefix(chunk_sequence(bytes, w), bytes, w);
    lemma_group_index(n, c - 1, c);
    assert(reassembled(chunk_sequence(bytes, w), w).take(n) =~= reassembled(
        chunk_sequence(bytes, w),
        w,
    ));
}

/// At width 8 a byte is its own single chunk: the chunk sequence is the byte
/// sequence.
pub proof fn lemma_width_eight_is_identity(bytes: Seq<u8>)
    ensures
        chunk_sequence(bytes, 8) == bytes,
{
    lemma_bit_mask_values();
    lemma_bit_position(8, 0);
    let c = chunks_per_byte(8);
    assert(c == 1);
    assert(chunk_sequence(bytes, 8).len() == bytes.len());
    assert forall|k: int| 0 <= k < bytes.len() implies chunk_sequence(bytes, 8)[k] == bytes[k] by {
        lemma_group_index(k, 0, c);
        let byte: u8 = bytes[k];
        assert((byte >> 0u8) & 255u8 == byte) by (bit_vector);
    }
    assert(chunk_sequence(bytes, 8) =~= bytes);
}

/// Cuts every byte into chunks of `bits_per_byte` bits, lowest bits first.
///
/// Fails exactly when the width does not divide 8.
pub fn divide_bytes(bytes: &[u8], bits_per_byte: u8) -> (result: Result<Vec<u8>, CodecError>)
    ensures
        match result {
            Ok(chunks) => {
                &&& valid_width(bits_per_byte)
                &&& chunks@ == chunk_sequence(bytes@, bits_per_byte)
                &&& chunks@.len() == bytes@.len() * chunks_per_byte(bits_per_byte)
                &&& forall|k: int|
                    0 <= k < chunks@.len() ==> #[trigger] chunks@[k] <= bit_mask(bits_per_byte)
                &&& bits_per_byte == 8 ==> chunks@ == bytes@
            },
            Err(e) => !valid_width(bits_per_byte) && e == CodecError::InvalidChunkWidth,
        },
{
    if !is_valid_width(bits_per_byte) {
        return Err(CodecError::InvalidChunkWidth);
    }
    proof {
        lemma_bit_mask_values();
        lemma_bit_position(bits_per_byte, 0);
    }
    let mask: u8 = generate_bit_mask(bits_per_byte) as u8;
    let ghost c: int = chunks_per_byte(bits_per_byte);
    let mut chunks: Vec<u8> = Vec::new();
    let mut i: usize = 0;
    while i < bytes.len()
        invariant
            valid_width(bits_per_byte),
            c == chunks_per_byte(bits_per_byte),
            0 < c,
            mask == bit_mask(bits_per_byte),
            i <= bytes.len(),
            chunks@.len() == i * c,
            forall|k: int|
                0 <= k < chunks@.len() ==> #[trigger] chunks@[k] == chunk_of(
                    bytes@[k / c],
                    k % c,
                    bits_per_byte,
                ),
        decreases bytes.len() - i,
    {
        let mut j: u8 = 0;
        let mut byte: u8 = bytes[i];
        let ghost done: int = 0;
        assert(byte >> 0u8 == byte) by (bit_vector);
        while j < 8
            invariant
                valid_width(bits_per_byte),
                c == chunks_per_byte(bits_per_byte),
                0 < c,
                mask == bit_mask(bits_per_byte),
                i < bytes.len(),
                0 <= done <= c,
                j == done * bits_per_byte,
                j <= 8,
                j < 8 ==> byte == bytes@[i as int] >> j,
                chunks@.len() == i * c + done,
                forall|k: int|
                    0 <= k < chunks@.len() ==> #[trigger] chunks@[k] == chunk_of(
                        bytes@[k / c],
                        k % c,
                        bits_per_byte,
                    ),
            decreases 8 - j,
        {
            proof {
                lemma_bit_position(bits_per_byte, done);
                lemma_group_index(i as int, done, c);
            }
            let ghost before = chunks@;
            let ghost shift: u8 = j;
            j += bits_per_byte;
            chunks.push(byte & mask);
            if bits_per_byte < 8 {
                let ghost source: u8 = bytes@[i as int];
                assert((source >> shift) >> bits_per_byte == source >> j) by (bit_vector)
                    requires
                        j == shift + bits_per_byte,
                        j <= 8,
                ;
                byte = byte >> bits_per_byte;
            }
            proof {
                done = done + 1;
                assert forall|k: int| 0 <= k < chunks@.len() implies #[trigger] chunks@[k] == chunk_of(
                    bytes@[k / c],
                    k % c,
                    bits_per_byte,
                ) by {
                    if k < before.len() {
                        assert(chunks@[k] == before[k]);
                    }
                }
            }
        }
        proof {
            lemma_bit_position(bits_per_byte, done - 1);
            assert((i + 1) * c == i * c + c) by (nonlinear_arith);
        }
        i += 1;
    }
    proof {
        assert(chunks@ =~= chunk_sequence(bytes@, bits_per_byte));
        assert forall|k: int| 0 <= k < chunks@.len() implies #[trigger] chunks@[k] <= bit_mask(
            bits_per_byte,
        ) by {
            lemma_chunk_in_range(bytes@[k / c], k % c, bits_per_byte);
        }
        if bits_per_byte == 8 {
            lemma_width_eight_is_identity(bytes@);
        }
    }
    Ok(chunks)
}

/// Packs the chunks back into bytes, `8 / bits_per_byte` chunks to a byte,
/// the first chunk of a group in the lowest bits. Chunks left over at the end
/// give one more byte, which holds them in its low bits.
///
/// Fails exactly when the width does not divide 8.
pub fn reassemble(chunks: &[u8], bits_per_byte: u8) -> (result: Result<Vec<u8>, CodecError>)
    ensures
        match result {
            Ok(bytes) => {
                &&& valid_width(bits_per_byte)
                &&& bytes@ == reassembled(chunks@, bits_per_byte)
                &&& bytes@.len() == byte_count(chunks@.len() as int, bits_per_byte)
            },
            Err(e) => !valid_width(bits_per_byte) && e == CodecError::InvalidChunkWidth,
        },
{
    if !is_valid_width(bits_per_byte) {
        return Err(CodecError::InvalidChunkWidth);
    }
    proof {
        lemma_bit_position(bits_per_byte, 0);
    }
    let ghost c: int = chunks_per_byte(bits_per_byte);
    let ghost start: int = 0;
    let ghost done: int = 0;
    let mut bytes: Vec<u8> = Vec::new();
    let mut j: u8 = 0;
    let mut temp_byte: u8 = 0;
    let mut i: usize = 0;
    assert(0 * c == 0);
    while i < chunks.len()
        invariant
            valid_width(bits_per_byte),
            c == chunks_per_byte(bits_per_byte),
            0 < c,
            i <= chunks.len(),
            start == bytes@.len() * c,
            0 <= done < c,
            i == start + done,
            j == done * bits_per_byte,
            j < 8,
            temp_byte == pack(chunks@.subrange(start, i as int), bits_per_byte),
            forall|t: int|
                0 <= t < bytes@.len() ==> #[trigger] bytes@[t] == pack(
                    group_of(chunks@, t, bits_per_byte),
                    bits_per_byte,
                ),
        decreases chunks.len() - i,
    {
        proof {
            lemma_bit_position(bits_per_byte, done);
            assert(chunks@.subrange(start, i + 1).drop_last() =~= chunks@.subrange(start, i as int));
        }
        temp_byte = temp_byte | (chunks[i] << j);
        j += bits_per_byte;
        proof {
            done = done + 1;
        }
        if j >= 8 {
            proof {
                assert((bytes@.len() + 1) * c == bytes@.len() * c + c) by (nonlinear_arith);
                assert(group_of(chunks@, bytes@.len() as int, bits_per_byte) =~= chunks@.subrange(
                    start,
                    i + 1,
                ));
                start = start + c;
                done = 0;
            }
            bytes.push(temp_byte);
            j = 0;
            temp_byte = 0;
        }
        i += 1;
    }
    let ghost whole: int = bytes@.len() as int;
    assert(done > 0 <==> j > 0) by (nonlinear_arith)
        requires
            j == done * bits_per_byte,
            bits_per_byte > 0,
            done >= 0,
    ;
    if j > 0 {
        proof {
            assert((whole + 1) * c == whole * c + c) by (nonlinear_arith);
            assert(group_of(chunks@, whole, bits_per_byte) =~= chunks@.subrange(start, i as int));
            lemma_group_index(whole + 1, done - 1, c);
        }
        bytes.push(temp_byte);
    } else {
        proof {
            lemma_group_index(whole, c - 1, c);
        }
    }
    assert(bytes@.len() == byte_count(chunks@.len() as int, bits_per_byte));
    assert(bytes@ =~= reassembled(chunks@, bits_per_byte));
    Ok(bytes)
}

} // verus!
