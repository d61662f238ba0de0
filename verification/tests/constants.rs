use tgif::constants::CHUNK_SIZE;
use tgif::encode::check_parameters;
use tgif::header::STARTING_INDEX;

#[test]
fn test_constants() {
    assert!(CHUNK_SIZE >= 257); // The biggest indivisible chunk is 256 * "1" + "0"
    assert_eq!(CHUNK_SIZE % 8, 0); // Chunks of bits must divisible in bytes
}

#[test]
fn default_chunk_size_fits_every_remainder_width() {
    assert_eq!(CHUNK_SIZE, 262_144);
    assert_eq!(STARTING_INDEX, 17);
    for rem_bits in 0..=7 {
        assert_eq!(check_parameters(rem_bits, CHUNK_SIZE as u32), Ok(()));
    }
}
