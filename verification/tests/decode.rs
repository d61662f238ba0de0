use tgif::decode::{
    decode_chunk, decode_rice, decode_with_remainder, decode_without_remainder, join_chunks,
    rev_rice_index, reverse_delta, reverse_rice_index,
};
use tgif::encode::{delta, encode_codeword, frame_indices, pack_bits, pad_ones, rice_index};

#[test]
fn test_reverse_rice_index() {
    let original = vec![0, 1, 255, 127, 128];
    let rice_index = vec![0, 2, 1, 254, 255];
    assert_eq!(reverse_rice_index(rice_index), original);
}

#[test]
fn test_reverse_delta() {
    // Most simple case
    assert_eq!(reverse_delta(vec![0], 1), vec![0]);

    // Simple case with wrapping sub
    assert_eq!(reverse_delta(vec![1], 1), vec![255]);

    // Two wrapping subs
    assert_eq!(reverse_delta(vec![255, 255], 2), vec![1, 2]);

    // Not wrapping, wrapping, not wrapping, wrapping
    assert_eq!(reverse_delta(vec![0, 1, 254, 3], 4), vec![0, 255, 1, 254]);

    // Delta with reset
    assert_eq!(
        reverse_delta(vec![1, 0, 3, 254], 2),
        vec![255, 255, 253, 255]
    );

    // Another delta with reset
    let original = vec![0, 0, 255, 255, 0, 0, 0, 255];
    let delta = vec![0, 0, 1, 0, 0, 0, 0, 1];
    assert_eq!(reverse_delta(delta, 2), original)
}

#[test]
fn index_mapping_is_a_permutation() {
    let mut seen = [false; 256];
    for num in 0..=u8::MAX {
        assert_eq!(rev_rice_index(rice_index(num)), num);
        assert_eq!(rice_index(rev_rice_index(num)), num);
        assert!(!seen[rice_index(num) as usize]);
        seen[rice_index(num) as usize] = true;
    }
}

#[test]
fn rev_rice_index_values() {
    assert_eq!(rev_rice_index(0), 0);
    assert_eq!(rev_rice_index(1), 255);
    assert_eq!(rev_rice_index(2), 1);
    assert_eq!(rev_rice_index(3), 254);
    assert_eq!(rev_rice_index(254), 127);
    assert_eq!(rev_rice_index(255), 128);
}

#[test]
fn reverse_delta_leaves_an_incomplete_row() {
    // Two full rows of two, and one value that belongs to no row.
    assert_eq!(reverse_delta(vec![1, 0, 3, 254, 7], 2), vec![255, 255, 253, 255, 7]);
    // No row is complete.
    assert_eq!(reverse_delta(vec![1, 2], 3), vec![1, 2]);
    // Rows of no samples: nothing is a row.
    assert_eq!(reverse_delta(vec![1, 2], 0), vec![1, 2]);
    assert_eq!(reverse_delta(vec![], 4), Vec::<u8>::new());
}

#[test]
fn reverse_delta_undoes_delta() {
    let samples: Vec<u8> = (0..=255u8).chain([7, 200, 200, 0, 255, 128, 127]).collect();
    for width in 0..=samples.len() + 1 {
        let residuals = delta(&samples, width);
        assert_eq!(reverse_delta(residuals, width), samples, "width={}", width);
        let decoded = reverse_delta(samples.clone(), width);
        assert_eq!(delta(&decoded, width), samples, "width={}", width);
    }
}

#[test]
fn codeword_round_trip() {
    for rem_bits in 0..=7u8 {
        for index in 0..=u8::MAX {
            let mut bits = encode_codeword(index, rem_bits).unwrap();
            // One bits up to the end of the byte, as at the end of a payload.
            let padding = 8 - bits.len() % 8;
            pad_ones(&mut bits, padding);
            let bytes = pack_bits(&bits);
            assert_eq!(bytes.len() * 8, bits.len());
            assert_eq!(
                decode_chunk(&bytes, rem_bits),
                vec![index],
                "rem={}, ind={}",
                rem_bits,
                index
            );
        }
    }
}

#[test]
fn decode_without_remainder_counts_runs() {
    // 1101110 1 | 0 0 111111: the runs 2, 3, 1, 0 and a run that nothing ends.
    let mut res = vec![9];
    decode_without_remainder(&[0b1101_1101, 0b0011_1111], &mut res);
    assert_eq!(res, vec![9, 2, 3, 1, 0]);
}

#[test]
fn decode_with_remainder_reads_quotient_and_remainder() {
    // 110 001 | 0 111 | 1111: (2 << 3) + 1 = 17, (0 << 3) + 7 = 7, then padding.
    let mut res = vec![9];
    decode_with_remainder(&[0b1100_0101, 0b1111_1111], &mut res, 3);
    assert_eq!(res, vec![9, 17, 7]);
}

#[test]
fn decode_with_remainder_of_no_bits_is_unary() {
    let chunk = [0b1101_1101, 0b0011_1111, 0b0000_0001];
    let mut unary = Vec::new();
    decode_without_remainder(&chunk, &mut unary);
    let mut general = Vec::new();
    decode_with_remainder(&chunk, &mut general, 0);
    assert_eq!(unary, general);
    assert_eq!(decode_chunk(&chunk, 0), unary);
}

#[test]
fn decode_drops_a_codeword_that_is_cut_off() {
    // 0 0000011 | 10 1111 11: the index 3, then a codeword whose remainder
    // of seven bits is cut off after six.
    assert_eq!(decode_chunk(&[0b0000_0011, 0b1011_1111], 7), vec![3]);
    // A zero bit at the very end, with no remainder behind it.
    assert_eq!(decode_chunk(&[0b1111_1110], 2), Vec::<u8>::new());
    assert_eq!(decode_chunk(&[], 2), Vec::<u8>::new());
    assert_eq!(decode_chunk(&[0xff, 0xff], 0), Vec::<u8>::new());
}

#[test]
fn decode_keeps_the_low_eight_bits_of_a_long_run() {
    // 257 one bits and a zero bit: the run has the length 257 = 256 + 1.
    let mut bits = vec![true; 257];
    bits.push(false);
    pad_ones(&mut bits, 6);
    assert_eq!(decode_chunk(&pack_bits(&bits), 0), vec![1]);
    // 130 one bits, a zero bit and the remainder 1: (130 << 1) + 1 = 261.
    let mut bits = vec![true; 130];
    bits.push(false);
    bits.push(true);
    pad_ones(&mut bits, 4);
    assert_eq!(decode_chunk(&pack_bits(&bits), 1), vec![5]);
}

#[test]
fn chunks_are_decoded_independently() {
    // With seven remainder bits a codeword has 8 or 9 bits: a chunk of 16
    // bits holds two codewords only where both have 8 bits.
    let indices = vec![0u8, 255, 3, 128, 127, 1];
    let mut bits = frame_indices(&indices, 7, 16);
    let padding = 8 - bits.len() % 8;
    pad_ones(&mut bits, padding);
    let payload = pack_bits(&bits);
    assert_eq!(decode_rice(&payload, 7, 16), indices);

    let decoded: Vec<Vec<u8>> = payload.chunks(2).map(|chunk| decode_chunk(chunk, 7)).collect();
    assert_eq!(
        decoded,
        vec![vec![0], vec![255], vec![3], vec![128], vec![127, 1], vec![]]
    );
    assert_eq!(join_chunks(decoded), indices);
}

#[test]
fn join_keeps_the_order_of_the_chunks() {
    assert_eq!(join_chunks(vec![]), Vec::<u8>::new());
    assert_eq!(join_chunks(vec![vec![], vec![]]), Vec::<u8>::new());
    assert_eq!(
        join_chunks(vec![vec![3, 1], vec![], vec![2], vec![9, 9, 0]]),
        vec![3, 1, 2, 9, 9, 0]
    );
}

#[test]
fn chunk_independence_for_many_parameters() {
    let indices: Vec<u8> = (0..=255u8)
        .chain((0..=255u8).rev())
        .chain([0, 0, 255, 255, 1])
        .collect();
    for rem_bits in 0..=7u8 {
        let longest = (255usize >> rem_bits) + 1 + rem_bits as usize;
        let smallest = (longest + 7) / 8 * 8;
        for chunk_size in [smallest, smallest + 8, 264, 512, 4096] {
            let mut bits = frame_indices(&indices, rem_bits, chunk_size);
            let padding = 8 - bits.len() % 8;
            pad_ones(&mut bits, padding);
            let payload = pack_bits(&bits);
            assert_eq!(
                decode_rice(&payload, rem_bits, chunk_size),
                indices,
                "rem={}, chunk={}",
                rem_bits,
                chunk_size
            );
            let decoded = payload
                .chunks(chunk_size / 8)
                .map(|chunk| decode_chunk(chunk, rem_bits))
                .collect();
            assert_eq!(
                join_chunks(decoded),
                indices,
                "rem={}, chunk={}",
                rem_bits,
                chunk_size
            );
        }
    }
}

#[test]
fn decoding_with_another_chunk_size_goes_wrong() {
    let indices = vec![0u8, 255, 3, 128, 127, 1];
    let mut bits = frame_indices(&indices, 7, 16);
    let padding = 8 - bits.len() % 8;
    pad_ones(&mut bits, padding);
    let payload = pack_bits(&bits);
    assert_ne!(decode_rice(&payload, 7, 24), indices);
}
