use tgif::error::CodecError;
use tgif::header::{Header, STARTING_INDEX};

#[test]
fn header_new_keeps_the_fields() {
    let header = Header::new(640, 480, 262_144, 2);
    assert_eq!(header.name, "TGIF");
    assert_eq!(header.width, 640);
    assert_eq!(header.height, 480);
    assert_eq!(header.chunk_size, 262_144);
    assert_eq!(header.rem_bits, 2);
}

#[test]
fn header_is_written_height_first() {
    let bytes = Header::new(0x0102_0304, 0x0a0b_0c0d, 0x0004_0000, 5).to_u8();
    assert_eq!(
        bytes,
        vec![
            b'T', b'G', b'I', b'F', // magic
            0x0a, 0x0b, 0x0c, 0x0d, // height
            0x01, 0x02, 0x03, 0x04, // width
            0x00, 0x04, 0x00, 0x00, // chunk size
            5,
        ]
    );
    assert_eq!(bytes.len(), STARTING_INDEX);
}

#[test]
fn header_round_trip() {
    for (width, height, chunk_size, rem_bits) in [
        (0u32, 0u32, 0u32, 0u8),
        (1, 2, 8, 7),
        (u32::MAX, u32::MAX - 1, u32::MAX - 2, 255),
        (640, 480, 262_144, 2),
    ] {
        let mut bytes = Header::new(width, height, chunk_size, rem_bits).to_u8();
        bytes.extend([1, 2, 3]);
        let header = Header::from_u8(&bytes).unwrap();
        assert_eq!(header.name, "TGIF");
        assert_eq!(header.width, width);
        assert_eq!(header.height, height);
        assert_eq!(header.chunk_size, chunk_size);
        assert_eq!(header.rem_bits, rem_bits);
        assert_eq!(header.to_u8(), &bytes[..17]);
    }
}

#[test]
fn header_needs_seventeen_bytes() {
    let bytes = Header::new(3, 4, 72, 2).to_u8();
    for len in 0..17 {
        assert_eq!(
            Header::from_u8(&bytes[..len]).err(),
            Some(CodecError::MalformedHeader)
        );
    }
    assert!(Header::from_u8(&bytes).is_ok());
}

#[test]
fn header_needs_the_magic_bytes() {
    let bytes = Header::new(3, 4, 72, 2).to_u8();
    for at in 0..4 {
        let mut wrong = bytes.clone();
        wrong[at] ^= 0x20;
        assert_eq!(
            Header::from_u8(&wrong).err(),
            Some(CodecError::MalformedHeader)
        );
    }
}

#[test]
fn header_fields_are_not_checked() {
    let bytes = Header::new(0, 0, 3, 200).to_u8();
    let header = Header::from_u8(&bytes).unwrap();
    assert_eq!(header.chunk_size, 3);
    assert_eq!(header.rem_bits, 200);
}

#[test]
fn slice_is_read_big_endian() {
    assert_eq!(Header::slice_u8_as_u32_be(&[0, 0, 0, 0]), 0);
    assert_eq!(Header::slice_u8_as_u32_be(&[0, 0, 1, 2]), 258);
    assert_eq!(Header::slice_u8_as_u32_be(&[0x12, 0x34, 0x56, 0x78]), 0x1234_5678);
    assert_eq!(Header::slice_u8_as_u32_be(&[255, 255, 255, 255]), u32::MAX);
}

#[test]
fn errors_have_messages() {
    let errors = [
        CodecError::MalformedHeader,
        CodecError::InvalidRemainderWidth,
        CodecError::IncompatibleChunkSize,
        CodecError::PixelCountMismatch,
    ];
    for (i, a) in errors.iter().enumerate() {
        assert!(!a.message().is_empty());
        for b in &errors[i + 1..] {
            assert_ne!(a, b);
            assert_ne!(a.message(), b.message());
        }
    }
}
