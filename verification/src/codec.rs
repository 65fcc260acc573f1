//! Writing chunks into the low bits of audio samples, and reading them out.

use crate::error::CodecError;
use crate::splitter::{
    byte_count, chunk_sequence, lemma_chunk_in_range, lemma_reassembled_prefix, reassemble,
    reassembled,
};
use crate::width::{
    bit_mask, chunks_per_byte, generate_bit_mask, is_valid_width, lemma_bit_mask_values,
    valid_width,
};
use vstd::arithmetic::div_mod::lemma_fundamental_div_mod_converse;
use vstd::arithmetic::power2::{lemma2_to64, pow2};
use vstd::prelude::*;

verus! {

/// The number of bits of the samples that the codec works on.
pub const SAMPLE_BITS: u16 = 16;

/// Which sample a chunk is written over.
#[derive(Clone, Copy, Debug, PartialEq, Eq, Structural)]
pub enum Placement {
    /// Chunk `i` goes over sample `i % n`, `n` being the number of samples: a
    /// payload longer than the audio starts again at the first sample, and
    /// every chunk is written.
    Cyclic,
    /// Chunk `i` goes over sample `i`; chunks past the end of the audio are
    /// not written.
    Sequential,
}

/// How `insert` lays the payload over the audio.
#[derive(Clone, Copy, Debug, PartialEq, Eq, Structural)]
pub struct InsertPolicy {
    /// Which sample a chunk is written over.
    pub placement: Placement,
    /// Whether a copy of the last sample of the audio is added at the end
    /// when the number of samples would otherwise be odd.
    pub pad_to_even: bool,
}

/// How many chunks out of `m` are written when there are `n` samples.
pub open spec fn placed_count(placement: Placement, n: int, m: int) -> int {
    match placement {
        Placement::Cyclic => m,
        Placement::Sequential => if m <= n {
            m
        } else {
            n
        },
    }
}

/// Whether every chunk out of `m` is written when there are `n` samples.
pub open spec fn payload_fits(placement: Placement, n: int, m: int) -> bool {
    placed_count(placement, n, m) == m
}

/// The sample that chunk `i` is written over, out of `n`.
pub open spec fn target_index(placement: Placement, n: int, i: int) -> int {
    match placement {
        Placement::Cyclic => i % n,
        Placement::Sequential => i,
    }
}

/// The number of samples that come out before any padding: one for every
/// chunk written, and at least those of the audio.
pub open spec fn unpadded_len(placement: Placement, n: int, m: int) -> int {
    if placed_count(placement, n, m) <= n {
        n
    } else {
        placed_count(placement, n, m)
    }
}

/// The sample of the audio that output sample `i` is made from: the one its
/// chunk is written over, or itself where it is copied, or the last one for
/// the padding.
pub open spec fn origin_index(placement: Placement, n: int, m: int, i: int) -> int {
    if i < placed_count(placement, n, m) {
        target_index(placement, n, i)
    } else if i < unpadded_len(placement, n, m) {
        i
    } else {
        n - 1
    }
}

/// A sample with its low `w` bits replaced by a chunk: the bits of the sample
/// under the mask are cleared, and the chunk is OR-ed in.
pub open spec fn embed(sample: i16, chunk: u8, w: u8) -> i16 {
    (sample & !(bit_mask(w) as i16)) | (chunk as i16)
}

/// The low `w` bits of a sample, read as an unsigned number: the sign of the
/// sample has no part in it.
pub open spec fn low_bits(sample: i16, w: u8) -> u8 {
    ((sample as u16) & (bit_mask(w) as u16)) as u8
}

/// The bits of a sample above its low `w` bits.
pub open spec fn high_bits(sample: i16, w: u8) -> i16 {
    sample >> w
}

/// The samples that come out of an insertion before any padding: a sample for
/// every chunk written, then the samples of the audio that no chunk reached.
pub open spec fn inserted_unpadded(
    samples: Seq<i16>,
    chunks: Seq<u8>,
    w: u8,
    placement: Placement,
) -> Seq<i16> {
    let n = samples.len() as int;
    let m = chunks.len() as int;
    Seq::new(
        unpadded_len(placement, n, m) as nat,
        |i: int|
            if i < placed_count(placement, n, m) {
                embed(samples[target_index(placement, n, i)], chunks[i], w)
            } else {
                samples[i]
            },
    )
}

/// The samples that come out of an insertion.
pub open spec fn inserted(samples: Seq<i16>, chunks: Seq<u8>, w: u8, policy: InsertPolicy) -> Seq<
    i16,
> {
    let body = inserted_unpadded(samples, chunks, w, policy.placement);
    if policy.pad_to_even && body.len() % 2 == 1 {
        body.push(samples.last())
    } else {
        body
    }
}

/// The chunks that a sample sequence carries: the low bits of every sample, in
/// order.
pub open spec fn recovered_chunks(samples: Seq<i16>, w: u8) -> Seq<u8> {
    Seq::new(samples.len(), |i: int| low_bits(samples[i], w))
}

/// The bytes that a sample sequence carries: its chunks, packed.
pub open spec fn recovered(samples: Seq<i16>, w: u8) -> Seq<u8> {
    reassembled(recovered_chunks(samples, w), w)
}

/// The two parts of a sample read as numbers: the low bits are the sample
/// modulo `2^w`, the high bits the sample divided by `2^w`, rounded down.
pub proof fn lemma_sample_parts_are_div_mod(sample: i16, w: u8)
    requires
        valid_width(w),
    ensures
        low_bits(sample, w) == sample as int % pow2(w as nat) as int,
        high_bits(sample, w) == sample as int / pow2(w as nat) as int,
        low_bits(sample, w) <= bit_mask(w),
{
    lemma_bit_mask_values();
    lemma2_to64();
    let m: u8 = bit_mask(w) as u8;
    let q: int = pow2(w as nat) as int;
    let low: u8 = ((sample as u16) & (m as u16)) as u8;
    let high: i16 = sample >> w;
    assert(bit_mask(w) as u16 == m as u16);
    assert(sample == high * (m + 1) + low && low <= m) by (bit_vector)
        requires
            low == ((sample as u16) & (m as u16)) as u8,
            high == sample >> w,
            (w == 1 && m == 1) || (w == 2 && m == 3) || (w == 4 && m == 15) || (w == 8 && m
                == 255),
    ;
    assert(high * (m + 1) == high * q);
    lemma_fundamental_div_mod_converse(sample as int, q, high as int, low as int);
}

/// A sample that a chunk was written into carries that chunk, as long as the
/// chunk fits under the mask.
pub proof fn lemma_embed_carries_chunk(sample: i16, chunk: u8, w: u8)
    requires
        valid_width(w),
        chunk <= bit_mask(w),
    ensures
        low_bits(embed(sample, chunk, w), w) == chunk,
{
    lemma_bit_mask_values();
    let m: u8 = bit_mask(w) as u8;
    assert(bit_mask(w) as i16 == m as i16 && bit_mask(w) as u16 == m as u16);
    assert(((((sample & !(m as i16)) | (chunk as i16)) as u16) & (m as u16)) as u8 == chunk)
        by (bit_vector)
        requires
            m == 1 || m == 3 || m == 15 || m == 255,
            chunk <= m,
    ;
}

/// Writing a chunk into a sample leaves the bits above the chunk as they
/// were, as long as the chunk fits under the mask.
pub proof fn lemma_embed_keeps_high_bits(sample: i16, chunk: u8, w: u8)
    requires
        valid_width(w),
        chunk <= bit_mask(w),
    ensures
        high_bits(embed(sample, chunk, w), w) == high_bits(sample, w),
{
    lemma_bit_mask_values();
    let m: u8 = bit_mask(w) as u8;
    assert(bit_mask(w) as i16 == m as i16);
    assert(((sample & !(m as i16)) | (chunk as i16)) >> w == sample >> w) by (bit_vector)
        requires
            (w == 1 && m == 1) || (w == 2 && m == 3) || (w == 4 && m == 15) || (w == 8 && m
                == 255),
            chunk <= m,
    ;
}

/// How many samples come out of an insertion: never fewer than went in, one
/// for every chunk written, and one more where padding makes the count even.
pub proof fn lemma_inserted_len(samples: Seq<i16>, chunks: Seq<u8>, w: u8, policy: InsertPolicy)
    ensures
        inserted(samples, chunks, w, policy).len() == unpadded_len(
            policy.placement,
            samples.len() as int,
            chunks.len() as int,
        ) + if policy.pad_to_even && unpadded_len(
            policy.placement,
            samples.len() as int,
            chunks.len() as int,
        ) % 2 == 1 {
            1int
        } else {
            0int
        },
        samples.len() <= inserted(samples, chunks, w, policy).len(),
        placed_count(policy.placement, samples.len() as int, chunks.len() as int) <= inserted(
            samples,
            chunks,
            w,
            policy,
        ).len(),
        inserted(samples, chunks, w, policy).len() <= samples.len() + 1 || inserted(
            samples,
            chunks,
            w,
            policy,
        ).len() <= chunks.len() + 1,
        policy.pad_to_even ==> inserted(samples, chunks, w, policy).len() % 2 == 0,
        !policy.pad_to_even && chunks.len() <= samples.len() ==> inserted(
            samples,
            chunks,
            w,
            policy,
        ).len() == samples.len(),
{
}

/// Every sample that comes out of an insertion has, above its low `w` bits,
/// the bits of the sample of the audio that it was made from, as long as the
/// chunk written into it fits under the mask.
pub proof fn lemma_insert_keeps_high_bits(
    samples: Seq<i16>,
    chunks: Seq<u8>,
    w: u8,
    policy: InsertPolicy,
    i: int,
)
    requires
        valid_width(w),
        !(policy.placement == Placement::Cyclic && samples.len() == 0),
        0 <= i < inserted(samples, chunks, w, policy).len(),
        i < placed_count(policy.placement, samples.len() as int, chunks.len() as int) ==> chunks[i]
            <= bit_mask(w),
    ensures
        0 <= origin_index(policy.placement, samples.len() as int, chunks.len() as int, i)
            < samples.len(),
        high_bits(inserted(samples, chunks, w, policy)[i], w) == high_bits(
            samples[origin_index(policy.placement, samples.len() as int, chunks.len() as int, i)],
            w,
        ),
{
    let n = samples.len() as int;
    let m = chunks.len() as int;
    if i < placed_count(policy.placement, n, m) {
        lemma_embed_keeps_high_bits(samples[target_index(policy.placement, n, i)], chunks[i], w);
    }
}

/// A payload that was cut into chunks and inserted is read back from the
/// samples: the bytes recovered start with the payload. This holds wherever
/// every chunk of the payload was written.
pub proof fn lemma_insert_then_recover(
    samples: Seq<i16>,
    payload: Seq<u8>,
    w: u8,
    policy: InsertPolicy,
)
    requires
        valid_width(w),
        samples.len() > 0,
        payload_fits(
            policy.placement,
            samples.len() as int,
            chunk_sequence(payload, w).len() as int,
        ),
    ensures
        payload.len() <= recovered(
            inserted(samples, chunk_sequence(payload, w), w, policy),
            w,
        ).len(),
        recovered(inserted(samples, chunk_sequence(payload, w), w, policy), w).take(
            payload.len() as int,
        ) == payload,
{
    let chunks = chunk_sequence(payload, w);
    let out = inserted(samples, chunks, w, policy);
    let carried = recovered_chunks(out, w);
    let n = samples.len() as int;
    assert forall|k: int| 0 <= k < chunks.len() implies carried[k] == chunks[k] by {
        lemma_chunk_in_range(
            payload[k / chunks_per_byte(w)],
            k % chunks_per_byte(w),
            w,
        );
        lemma_embed_carries_chunk(samples[target_index(policy.placement, n, k)], chunks[k], w);
    }
    lemma_reassembled_prefix(carried, payload, w);
}

/// Writes the chunks over the low `bits_per_byte` bits of the samples, as the
/// policy says, and copies the samples that no chunk reached.
///
/// Fails when the width does not divide 8; and, the width being valid, when
/// the placement is cyclic and there are no samples.
pub fn insert(samples: &[i16], chunks: &[u8], bits_per_byte: u8, policy: InsertPolicy) -> (result:
    Result<Vec<i16>, CodecError>)
    ensures
        match result {
            Ok(out) => {
                &&& valid_width(bits_per_byte)
                &&& !(policy.placement == Placement::Cyclic && samples@.len() == 0)
                &&& out@ == inserted(samples@, chunks@, bits_per_byte, policy)
                &&& samples@.len() <= out@.len()
                &&& forall|i: int|
                    0 <= i < out@.len() && (i < placed_count(
                        policy.placement,
                        samples@.len() as int,
                        chunks@.len() as int,
                    ) ==> chunks@[i] <= bit_mask(bits_per_byte)) ==> high_bits(
                        #[trigger] out@[i],
                        bits_per_byte,
                    ) == high_bits(
                        samples@[origin_index(
                            policy.placement,
                            samples@.len() as int,
                            chunks@.len() as int,
                            i,
                        )],
                        bits_per_byte,
                    )
            },
            Err(e) => if valid_width(bits_per_byte) {
                policy.placement == Placement::Cyclic && samples@.len() == 0 && e
                    == CodecError::EmptyAudio
            } else {
                e == CodecError::InvalidChunkWidth
            },
        },
{
    if !is_valid_width(bits_per_byte) {
        return Err(CodecError::InvalidChunkWidth);
    }
    let n: usize = samples.len();
    let cyclic: bool = match policy.placement {
        Placement::Cyclic => true,
        Placement::Sequential => false,
    };
    if cyclic && n == 0 {
        return Err(CodecError::EmptyAudio);
    }
    proof {
        lemma_bit_mask_values();
    }
    let keep: i16 = !(generate_bit_mask(bits_per_byte) as i16);
    let placed: usize = if cyclic || chunks.len() <= n {
        chunks.len()
    } else {
        n
    };
    let mut out: Vec<i16> = Vec::new();
    let mut i: usize = 0;
    while i < placed
        invariant
            valid_width(bits_per_byte),
            n == samples@.len(),
            cyclic == (policy.placement == Placement::Cyclic),
            cyclic ==> n > 0,
            placed == placed_count(policy.placement, n as int, chunks@.len() as int),
            keep == !(bit_mask(bits_per_byte) as i16),
            i <= placed <= chunks@.len(),
            !cyclic ==> placed <= n,
            out@.len() == i,
            forall|k: int|
                0 <= k < i ==> #[trigger] out@[k] == embed(
                    samples@[target_index(policy.placement, n as int, k)],
                    chunks@[k],
                    bits_per_byte,
                ),
        decreases placed - i,
    {
        let orig_sample: i16 = if cyclic {
            samples[i % n]
        } else {
            samples[i]
        };
        let sample_inserted: i16 = (orig_sample & keep) | (chunks[i] as i16);
        out.push(sample_inserted);
        i += 1;
    }
    if placed < n {
        let mut j: usize = placed;
        while j < n
            invariant
                n == samples@.len(),
                placed <= j <= n,
                out@.len() == j,
                forall|k: int|
                    0 <= k < placed ==> #[trigger] out@[k] == embed(
                        samples@[target_index(policy.placement, n as int, k)],
                        chunks@[k],
                        bits_per_byte,
                    ),
                forall|k: int| placed <= k < j ==> #[trigger] out@[k] == samples@[k],
            decreases n - j,
        {
            out.push(samples[j]);
            j += 1;
        }
    }
    assert(out@ =~= inserted_unpadded(samples@, chunks@, bits_per_byte, policy.placement));
    if policy.pad_to_even && out.len() % 2 != 0 {
        out.push(samples[n - 1]);
    }
    proof {
        assert forall|i: int|
            0 <= i < out@.len() && (i < placed_count(
                policy.placement,
                samples@.len() as int,
                chunks@.len() as int,
            ) ==> chunks@[i] <= bit_mask(bits_per_byte)) implies high_bits(
            #[trigger] out@[i],
            bits_per_byte,
        ) == high_bits(
            samples@[origin_index(
                policy.placement,
                samples@.len() as int,
                chunks@.len() as int,
                i,
            )],
            bits_per_byte,
        ) by {
            lemma_insert_keeps_high_bits(samples@, chunks@, bits_per_byte, policy, i);
        }
    }
    Ok(out)
}

/// Reads the chunk that every sample carries in its low `bits_per_byte` bits.
///
/// Fails exactly when the width does not divide 8.
pub fn recover_chunks(samples: &[i16], bits_per_byte: u8) -> (result: Result<Vec<u8>, CodecError>)
    ensures
        match result {
            Ok(chunks) => {
                &&& valid_width(bits_per_byte)
                &&& chunks@ == recovered_chunks(samples@, bits_per_byte)
                &&& chunks@.len() == samples@.len()
                &&& forall|k: int|
                    0 <= k < chunks@.len() ==> #[trigger] chunks@[k] <= bit_mask(bits_per_byte)
            },
            Err(e) => !valid_width(bits_per_byte) && e == CodecError::InvalidChunkWidth,
        },
{
    if !is_valid_width(bits_per_byte) {
        return Err(CodecError::InvalidChunkWidth);
    }
    proof {
        lemma_bit_mask_values();
    }
    let mask: u16 = generate_bit_mask(bits_per_byte) as u16;
    let mut chunks: Vec<u8> = Vec::new();
    let mut i: usize = 0;
    while i < samples.len()
        invariant
            mask == bit_mask(bits_per_byte),
            mask <= 0xff,
            i <= samples.len(),
            chunks@.len() == i,
            forall|k: int|
                0 <= k < i ==> #[trigger] chunks@[k] == low_bits(samples@[k], bits_per_byte),
        decreases samples.len() - i,
    {
        let sample: u16 = #[verifier::truncate] (samples[i] as u16);
        let c: u16 = sample & mask;
        assert(c <= 0xff) by (bit_vector)
            requires
                c == sample & mask,
                mask <= 0xff,
        ;
        chunks.push(c as u8);
        i += 1;
    }
    proof {
        assert(chunks@ =~= recovered_chunks(samples@, bits_per_byte));
        assert forall|k: int| 0 <= k < chunks@.len() implies #[trigger] chunks@[k] <= bit_mask(
            bits_per_byte,
        ) by {
            lemma_sample_parts_are_div_mod(samples@[k], bits_per_byte);
        }
    }
    Ok(chunks)
}

/// Reads the bytes that a sample sequence carries in the low `bits_per_byte`
/// bits of its samples. Every sample is read: the bytes past the end of the
/// payload are whatever the audio held there.
///
/// Fails exactly when the width does not divide 8.
pub fn recover(samples: &[i16], bits_per_byte: u8) -> (result: Result<Vec<u8>, CodecError>)
    ensures
        match result {
            Ok(bytes) => {
                &&& valid_width(bits_per_byte)
                &&& bytes@ == recovered(samples@, bits_per_byte)
                &&& bytes@.len() == byte_count(samples@.len() as int, bits_per_byte)
            },
            Err(e) => !valid_width(bits_per_byte) && e == CodecError::InvalidChunkWidth,
        },
{
    match recover_chunks(samples, bits_per_byte) {
        Ok(chunks) => reassemble(chunks.as_slice(), bits_per_byte),
        Err(e) => Err(e),
    }
}

} // verus!
