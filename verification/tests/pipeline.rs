use tgif::decode::{decode, reconstruct};
use tgif::encode::encode;
use tgif::error::CodecError;
use tgif::grid::SampleGrid;
use tgif::header::Header;

#[test]
fn grid_needs_width_times_height_samples() {
    let grid = SampleGrid::new(vec![1, 2, 3, 4, 5, 6], 3, 2).unwrap();
    assert_eq!(grid.width(), 3);
    assert_eq!(grid.height(), 2);
    assert_eq!(grid.samples(), &vec![1, 2, 3, 4, 5, 6]);
    assert_eq!(grid.into_samples(), vec![1, 2, 3, 4, 5, 6]);
    assert!(SampleGrid::new(vec![1, 2, 3, 4, 5], 3, 2).is_none());
    assert!(SampleGrid::new(vec![1], 0, 5).is_none());
    assert!(SampleGrid::new(vec![], 0, 5).is_some());
    assert!(SampleGrid::new(vec![], u32::MAX, u32::MAX).is_none());
}

#[test]
fn end_to_end_example() {
    let grid = SampleGrid::new(vec![0, 255, 0, 254], 2, 2).unwrap();
    let file = encode(&grid, 2, 72).unwrap();
    // 000 010 000 1000 and three one bits: 0000_1000 0100_0111.
    assert_eq!(
        file,
        vec![
            b'T', b'G', b'I', b'F', 0, 0, 0, 2, 0, 0, 0, 2, 0, 0, 0, 72, 2, 0x08, 0x47
        ]
    );
    let back = decode(&file).unwrap();
    assert_eq!(back.width(), 2);
    assert_eq!(back.height(), 2);
    assert_eq!(back.samples(), &vec![0, 255, 0, 254]);
}

#[test]
fn payload_ends_with_one_to_eight_one_bits() {
    // Eight zero samples without remainder bits are eight zero bits: a
    // whole byte of one bits follows.
    let grid = SampleGrid::new(vec![0; 8], 4, 2).unwrap();
    let file = encode(&grid, 0, 256).unwrap();
    assert_eq!(&file[17..], &[0x00, 0xff]);
    let grid = SampleGrid::new(vec![0; 5], 5, 1).unwrap();
    let file = encode(&grid, 0, 256).unwrap();
    assert_eq!(&file[17..], &[0b0000_0111]);
    let grid = SampleGrid::new(vec![], 0, 0).unwrap();
    let file = encode(&grid, 0, 256).unwrap();
    assert_eq!(&file[17..], &[0xff]);
}

#[test]
fn zero_image_round_trip() {
    for (width, height) in [(1u32, 1u32), (8, 8), (3, 100), (300, 3)] {
        let count = (width * height) as usize;
        let grid = SampleGrid::new(vec![0; count], width, height).unwrap();
        let file = encode(&grid, 0, 256).unwrap();
        let payload = &file[17..];
        assert_eq!(payload.len(), count / 8 + 1);
        assert!(payload[..count / 8].iter().all(|byte| *byte == 0));
        assert_eq!(payload[count / 8], 0xff >> (count % 8));
        assert_eq!(decode(&file).unwrap().into_samples(), vec![0; count]);
    }
}

#[test]
fn round_trip_for_every_remainder_width() {
    let width = 37u32;
    let height = 23u32;
    let mut samples = Vec::new();
    let mut state = 12345u32;
    for i in 0..width * height {
        state = state.wrapping_mul(1_103_515_245).wrapping_add(12_345);
        let noise = (state >> 16) as u8;
        // Smooth in places, rough in others, with both ends of the range.
        samples.push(match i % 5 {
            0 => noise,
            1 => 0,
            2 => 255,
            _ => (i / 3) as u8,
        });
    }
    for rem_bits in 0..=7u8 {
        for chunk_size in [256u32, 264, 1024, 262_144] {
            let grid = SampleGrid::new(samples.clone(), width, height).unwrap();
            let file = encode(&grid, rem_bits, chunk_size).unwrap();
            let header = Header::from_u8(&file).unwrap();
            assert_eq!(header.width, width);
            assert_eq!(header.height, height);
            assert_eq!(header.chunk_size, chunk_size);
            assert_eq!(header.rem_bits, rem_bits);
            let back = decode(&file).unwrap();
            assert_eq!(back.width(), width);
            assert_eq!(back.height(), height);
            assert_eq!(back.into_samples(), samples, "rem={}, chunk={}", rem_bits, chunk_size);
        }
    }
}

#[test]
fn rows_do_not_depend_on_each_other() {
    let grid = SampleGrid::new(vec![9, 9, 9, 9, 9, 9], 3, 2).unwrap();
    let file = encode(&grid, 7, 16).unwrap();
    // Each row: the residual -9 (index 17), then 0 and 0.
    assert_eq!(&file[17..], &[17, 0, 0, 17, 0, 0, 0xff]);
}

#[test]
fn encode_refuses_bad_parameters() {
    let grid = SampleGrid::new(vec![0, 255, 0, 254], 2, 2).unwrap();
    assert_eq!(encode(&grid, 8, 72), Err(CodecError::InvalidRemainderWidth));
    assert_eq!(encode(&grid, 8, 7), Err(CodecError::InvalidRemainderWidth));
    assert_eq!(encode(&grid, 2, 0), Err(CodecError::IncompatibleChunkSize));
    assert_eq!(encode(&grid, 2, 71), Err(CodecError::IncompatibleChunkSize));
    assert_eq!(encode(&grid, 2, 64), Err(CodecError::IncompatibleChunkSize));
}

#[test]
fn decode_refuses_a_malformed_header() {
    assert_eq!(decode(&[]).err(), Some(CodecError::MalformedHeader));
    assert_eq!(decode(b"TGIF").err(), Some(CodecError::MalformedHeader));
    let grid = SampleGrid::new(vec![0, 255, 0, 254], 2, 2).unwrap();
    let mut file = encode(&grid, 2, 72).unwrap();
    assert_eq!(decode(&file[..16]).err(), Some(CodecError::MalformedHeader));
    file[0] = b'X';
    assert_eq!(decode(&file).err(), Some(CodecError::MalformedHeader));
}

#[test]
fn decode_refuses_bad_parameters() {
    let grid = SampleGrid::new(vec![0, 255, 0, 254], 2, 2).unwrap();
    let file = encode(&grid, 2, 72).unwrap();
    let mut wide = file.clone();
    wide[16] = 8;
    assert_eq!(decode(&wide).err(), Some(CodecError::InvalidRemainderWidth));
    let mut small = file.clone();
    small[15] = 64;
    assert_eq!(decode(&small).err(), Some(CodecError::IncompatibleChunkSize));
    let mut none = file.clone();
    none[15] = 0;
    assert_eq!(decode(&none).err(), Some(CodecError::IncompatibleChunkSize));
    let mut odd = file;
    odd[15] = 75;
    assert_eq!(decode(&odd).err(), Some(CodecError::IncompatibleChunkSize));
}

#[test]
fn decode_refuses_a_wrong_pixel_count() {
    let grid = SampleGrid::new(vec![0, 255, 0, 254], 2, 2).unwrap();
    let file = encode(&grid, 2, 72).unwrap();
    // The header asks for more samples than the payload holds.
    let mut taller = file.clone();
    taller[7] = 3;
    assert_eq!(decode(&taller).err(), Some(CodecError::PixelCountMismatch));
    // The payload holds more samples than the header asks for.
    let mut longer = file.clone();
    longer.push(0);
    assert_eq!(decode(&longer).err(), Some(CodecError::PixelCountMismatch));
    // The payload is cut off.
    let shorter = &file[..file.len() - 1];
    assert_eq!(decode(shorter).err(), Some(CodecError::PixelCountMismatch));
    // Trailing one bits hold nothing.
    let mut padded = file;
    padded.push(0xff);
    assert_eq!(decode(&padded).unwrap().into_samples(), vec![0, 255, 0, 254]);
}

#[test]
fn decode_uses_the_chunk_size_of_the_header() {
    let samples: Vec<u8> = (0..200u32).map(|i| (i * 37 % 251) as u8).collect();
    let grid = SampleGrid::new(samples.clone(), 20, 10).unwrap();
    let file = encode(&grid, 7, 16).unwrap();
    assert_eq!(decode(&file).unwrap().into_samples(), samples);
    // The same payload under another chunk size does not decode to the image.
    let mut other = file;
    other[15] = 24;
    assert_ne!(decode(&other).map(|grid| grid.into_samples()).ok(), Some(samples));
}

#[test]
fn reconstruct_checks_the_count() {
    let header = Header::new(2, 2, 72, 2);
    let grid = reconstruct(&header, vec![0, 2, 0, 4]).unwrap();
    assert_eq!(grid.samples(), &vec![0, 255, 0, 254]);
    assert_eq!(
        reconstruct(&header, vec![0, 2, 0]).err(),
        Some(CodecError::PixelCountMismatch)
    );
    let empty = Header::new(0, 7, 72, 2);
    assert_eq!(reconstruct(&empty, vec![]).unwrap().into_samples(), Vec::<u8>::new());
    assert_eq!(
        reconstruct(&empty, vec![1]).err(),
        Some(CodecError::PixelCountMismatch)
    );
}
