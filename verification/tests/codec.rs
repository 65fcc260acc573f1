use file2wav::codec::{insert, recover, recover_chunks, InsertPolicy, Placement, SAMPLE_BITS};
use file2wav::error::CodecError;
use file2wav::splitter::divide_bytes;

fn policy(placement: Placement, pad_to_even: bool) -> InsertPolicy {
    InsertPolicy { placement, pad_to_even }
}

fn every_policy() -> Vec<InsertPolicy> {
    vec![
        policy(Placement::Cyclic, false),
        policy(Placement::Cyclic, true),
        policy(Placement::Sequential, false),
        policy(Placement::Sequential, true),
    ]
}

#[test]
fn two_chunks_into_four_samples() {
    let samples: Vec<i16> = vec![5, -3, 100, -100];
    let chunks: Vec<u8> = vec![0b11, 0b01];
    for p in every_policy() {
        let out: Vec<i16> = insert(&samples, &chunks, 2, p).unwrap();
        assert_eq!(out, vec![(5 & !3) | 3, (-3 & !3) | 1, 100, -100]);
        assert_eq!(out, vec![7, -3, 100, -100]);
    }
}

#[test]
fn no_chunks_leave_the_audio_as_it_is() {
    let samples: Vec<i16> = vec![12, -7, 0, i16::MAX, i16::MIN, 1];
    for p in every_policy() {
        assert_eq!(insert(&samples, &[], 4, p).unwrap(), samples);
    }
}

#[test]
fn the_low_bits_are_replaced_and_the_rest_kept() {
    let seq: InsertPolicy = policy(Placement::Sequential, false);
    assert_eq!(insert(&[0x7fff], &[0], 1, seq).unwrap(), vec![0x7ffe]);
    assert_eq!(insert(&[0x7fff], &[0], 2, seq).unwrap(), vec![0x7ffc]);
    assert_eq!(insert(&[0x7fff], &[0], 4, seq).unwrap(), vec![0x7ff0]);
    assert_eq!(insert(&[0x7fff], &[0], 8, seq).unwrap(), vec![0x7f00]);
    assert_eq!(insert(&[i16::MIN], &[0xff], 8, seq).unwrap(), vec![i16::MIN + 0xff]);
    assert_eq!(insert(&[-1], &[0], 8, seq).unwrap(), vec![-256]);
    assert_eq!(insert(&[-1], &[0xA], 4, seq).unwrap(), vec![-6]);
    assert_eq!(insert(&[0], &[1], 1, seq).unwrap(), vec![1]);
}

#[test]
fn a_long_payload_wraps_round_under_cyclic_placement() {
    let samples: Vec<i16> = vec![0, -1];
    let chunks: Vec<u8> = vec![1, 2, 3];
    let out: Vec<i16> = insert(&samples, &chunks, 2, policy(Placement::Cyclic, false)).unwrap();
    assert_eq!(out, vec![1, -2, 3]);
}

#[test]
fn a_long_payload_is_cut_off_under_sequential_placement() {
    let samples: Vec<i16> = vec![0, -1];
    let chunks: Vec<u8> = vec![1, 2, 3];
    let out: Vec<i16> =
        insert(&samples, &chunks, 2, policy(Placement::Sequential, false)).unwrap();
    assert_eq!(out, vec![1, -2]);
}

#[test]
fn an_odd_count_is_padded_with_the_last_sample_of_the_audio() {
    let samples: Vec<i16> = vec![0, -1];
    let chunks: Vec<u8> = vec![1, 2, 3];
    let out: Vec<i16> = insert(&samples, &chunks, 2, policy(Placement::Cyclic, true)).unwrap();
    assert_eq!(out, vec![1, -2, 3, -1]);

    let odd: Vec<i16> = vec![8, 16, 32];
    let out: Vec<i16> = insert(&odd, &[1], 1, policy(Placement::Sequential, true)).unwrap();
    assert_eq!(out, vec![9, 16, 32, 32]);
    let out: Vec<i16> = insert(&odd, &[1], 1, policy(Placement::Cyclic, true)).unwrap();
    assert_eq!(out, vec![9, 16, 32, 32]);
    let out: Vec<i16> =
        insert(&odd, &[1, 1, 1, 1, 1], 1, policy(Placement::Sequential, true)).unwrap();
    assert_eq!(out, vec![9, 17, 33, 32]);
}

#[test]
fn an_odd_count_stays_odd_without_padding() {
    let odd: Vec<i16> = vec![8, 16, 32];
    let out: Vec<i16> = insert(&odd, &[1], 1, policy(Placement::Sequential, false)).unwrap();
    assert_eq!(out, vec![9, 16, 32]);
    let out: Vec<i16> = insert(&odd, &[1], 1, policy(Placement::Cyclic, false)).unwrap();
    assert_eq!(out, vec![9, 16, 32]);
}

#[test]
fn an_even_count_is_not_padded() {
    let samples: Vec<i16> = vec![8, 16, 32, 64];
    let out: Vec<i16> = insert(&samples, &[1, 0], 1, policy(Placement::Cyclic, true)).unwrap();
    assert_eq!(out, vec![9, 16, 32, 64]);
    let out: Vec<i16> =
        insert(&samples, &[1, 0], 1, policy(Placement::Sequential, true)).unwrap();
    assert_eq!(out, vec![9, 16, 32, 64]);
}

#[test]
fn the_output_is_never_shorter_than_the_audio() {
    let samples: Vec<i16> = vec![1, 2, 3, 4, 5, 6, 7];
    let payloads: Vec<Vec<u8>> = vec![vec![], vec![1], vec![1; 7], vec![1; 8], vec![1; 20]];
    for p in every_policy() {
        for chunks in &payloads {
            let out: Vec<i16> = insert(&samples, chunks, 1, p).unwrap();
            assert!(out.len() >= samples.len());
            assert!(out.len() <= samples.len().max(chunks.len()) + 1);
            if p.pad_to_even {
                assert_eq!(out.len() % 2, 0);
            }
        }
    }
}

#[test]
fn cyclic_placement_needs_samples() {
    assert_eq!(insert(&[], &[1, 2], 2, policy(Placement::Cyclic, false)), Err(CodecError::EmptyAudio));
    assert_eq!(insert(&[], &[1, 2], 2, policy(Placement::Cyclic, true)), Err(CodecError::EmptyAudio));
    assert_eq!(insert(&[], &[], 2, policy(Placement::Cyclic, true)), Err(CodecError::EmptyAudio));
}

#[test]
fn sequential_placement_on_no_samples_gives_no_samples() {
    assert_eq!(insert(&[], &[1, 2], 2, policy(Placement::Sequential, false)), Ok(vec![]));
    assert_eq!(insert(&[], &[1, 2], 2, policy(Placement::Sequential, true)), Ok(vec![]));
    assert_eq!(insert(&[], &[], 8, policy(Placement::Sequential, true)), Ok(vec![]));
}

#[test]
fn insert_refuses_a_width_that_does_not_divide_eight() {
    for p in every_policy() {
        assert_eq!(insert(&[1, 2], &[1], 3, p), Err(CodecError::InvalidChunkWidth));
        assert_eq!(insert(&[1, 2], &[1], 0, p), Err(CodecError::InvalidChunkWidth));
        assert_eq!(insert(&[], &[1], 9, p), Err(CodecError::InvalidChunkWidth));
    }
}

#[test]
fn a_chunk_wider_than_the_mask_is_written_as_it_is() {
    let out: Vec<i16> = insert(&[0], &[2], 1, policy(Placement::Sequential, false)).unwrap();
    assert_eq!(out, vec![2]);
    let out: Vec<i16> = insert(&[-1], &[0xF0], 4, policy(Placement::Sequential, false)).unwrap();
    assert_eq!(out, vec![-16 | 0xF0]);
}

#[test]
fn the_bits_above_the_chunk_stay_as_they_were() {
    let samples: Vec<i16> = vec![0, 1, -1, 255, 256, -256, 12345, -12345, i16::MAX, i16::MIN];
    let payload: Vec<u8> = vec![0x00, 0xff, 0xB4, 0x5A, 0x01, 0x80];
    let widths: [u8; 4] = [1, 2, 4, 8];
    for w in widths {
        let chunks: Vec<u8> = divide_bytes(&payload, w).unwrap();
        let n: usize = samples.len();
        let cyclic: Vec<i16> = insert(&samples, &chunks, w, policy(Placement::Cyclic, false)).unwrap();
        for (i, out) in cyclic.iter().enumerate() {
            let from: i16 = if i < chunks.len() { samples[i % n] } else { samples[i] };
            assert_eq!(out >> w, from >> w);
        }
        let seq: Vec<i16> = insert(&samples, &chunks, w, policy(Placement::Sequential, true)).unwrap();
        for (i, out) in seq.iter().enumerate() {
            let from: i16 = if i < n { samples[i] } else { samples[n - 1] };
            assert_eq!(out >> w, from >> w);
        }
    }
}

#[test]
fn chunks_are_read_from_the_low_bits() {
    assert_eq!(recover_chunks(&[7, -3, 100, -100], 2).unwrap(), vec![3, 1, 0, 0]);
    assert_eq!(recover_chunks(&[7, -3, 100, -100], 1).unwrap(), vec![1, 1, 0, 0]);
    assert_eq!(recover_chunks(&[7, -3, 100, -100], 4).unwrap(), vec![7, 13, 4, 12]);
    assert_eq!(recover_chunks(&[7, -3, 100, -100], 8).unwrap(), vec![7, 253, 100, 156]);
}

#[test]
fn the_sign_has_no_part_in_a_chunk() {
    assert_eq!(recover_chunks(&[-1], 1).unwrap(), vec![1]);
    assert_eq!(recover_chunks(&[-1], 2).unwrap(), vec![3]);
    assert_eq!(recover_chunks(&[-1], 4).unwrap(), vec![15]);
    assert_eq!(recover_chunks(&[-1], 8).unwrap(), vec![255]);
    assert_eq!(recover_chunks(&[i16::MIN], 8).unwrap(), vec![0]);
    assert_eq!(recover_chunks(&[i16::MIN + 1], 8).unwrap(), vec![1]);
    assert_eq!(recover_chunks(&[-256], 8).unwrap(), vec![0]);
    assert_eq!(recover_chunks(&[-129], 8).unwrap(), vec![127]);
}

#[test]
fn bytes_are_read_from_the_samples() {
    assert_eq!(recover(&[7, -3, 100, -100], 2).unwrap(), vec![0b00_00_01_11]);
    assert_eq!(recover(&[0, 1, 3, 2], 2).unwrap(), vec![0xB4]);
    assert_eq!(recover(&[0x1234, -1], 8).unwrap(), vec![0x34, 0xff]);
}

#[test]
fn samples_left_over_give_one_more_byte() {
    assert_eq!(recover(&[0, 1, 3, 2, 1], 2).unwrap(), vec![0xB4, 0x01]);
    assert_eq!(recover(&[1, 1, 1], 1).unwrap(), vec![0b111]);
    assert_eq!(recover(&[], 1).unwrap(), Vec::<u8>::new());
}

#[test]
fn recover_refuses_a_width_that_does_not_divide_eight() {
    assert_eq!(recover(&[1, 2, 3], 3), Err(CodecError::InvalidChunkWidth));
    assert_eq!(recover(&[], 0), Err(CodecError::InvalidChunkWidth));
    assert_eq!(recover_chunks(&[1, 2, 3], 5), Err(CodecError::InvalidChunkWidth));
    assert_eq!(recover_chunks(&[], 12), Err(CodecError::InvalidChunkWidth));
}

#[test]
fn insert_then_recover_gives_the_payload_back() {
    let mut samples: Vec<i16> = Vec::new();
    let mut s: i16 = -700;
    while s < 700 {
        samples.push(s.wrapping_mul(47));
        s += 1;
    }
    let payload: Vec<u8> = vec![b'f', b'i', b'l', b'e', 0, 255, 0xB4, 0x80, 0x7f, 1];
    let widths: [u8; 4] = [1, 2, 4, 8];
    for w in widths {
        let chunks: Vec<u8> = divide_bytes(&payload, w).unwrap();
        assert!(chunks.len() <= samples.len());
        for p in every_policy() {
            let out: Vec<i16> = insert(&samples, &chunks, w, p).unwrap();
            let bytes: Vec<u8> = recover(&out, w).unwrap();
            assert_eq!(&bytes[..payload.len()], &payload[..]);
            assert_eq!(&recover_chunks(&out, w).unwrap()[..chunks.len()], &chunks[..]);
        }
    }
}

#[test]
fn a_payload_longer_than_the_audio_comes_back_under_cyclic_placement() {
    let samples: Vec<i16> = vec![1000, -1000, 3];
    let payload: Vec<u8> = vec![0xDE, 0xAD, 0xBE, 0xEF];
    let widths: [u8; 4] = [1, 2, 4, 8];
    for w in widths {
        let chunks: Vec<u8> = divide_bytes(&payload, w).unwrap();
        for pad in [false, true] {
            let out: Vec<i16> =
                insert(&samples, &chunks, w, policy(Placement::Cyclic, pad)).unwrap();
            let bytes: Vec<u8> = recover(&out, w).unwrap();
            assert_eq!(&bytes[..payload.len()], &payload[..]);
        }
    }
}

#[test]
fn reading_only_the_samples_used_gives_exactly_the_payload() {
    let samples: Vec<i16> = vec![-5; 100];
    let payload: Vec<u8> = vec![0x42, 0x00, 0x99];
    let chunks: Vec<u8> = divide_bytes(&payload, 2).unwrap();
    let out: Vec<i16> = insert(&samples, &chunks, 2, policy(Placement::Cyclic, true)).unwrap();
    assert_eq!(out.len(), 100);
    assert_eq!(recover(&out[..chunks.len()], 2).unwrap(), payload);
    assert_eq!(recover(&out, 2).unwrap().len(), 25);
}

#[test]
fn samples_have_sixteen_bits() {
    assert_eq!(SAMPLE_BITS, 16);
    assert_eq!(SAMPLE_BITS as u32, i16::BITS);
}
