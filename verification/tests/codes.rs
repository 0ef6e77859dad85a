use vecq::codes::{bytes_per_vector, pack, read_code};

#[test]
fn four_bit_codes_are_nibbles_low_first() {
    assert_eq!(pack(&[1, 2, 15, 0, 7, 3], 4), vec![0x21, 0x0F, 0x37]);
    // A byte holds a pair; the last code here has no partner.
    assert_eq!(pack(&[1, 2, 15], 4), vec![0x21]);
}

#[test]
fn wider_codes_are_a_bit_stream() {
    assert_eq!(pack(&[1, 2], 5), vec![0x41, 0x00]);
    assert_eq!(pack(&[31, 31, 0, 31], 5), vec![0xFF, 0x83, 0x0F]);
    assert_eq!(pack(&[63, 1, 2, 3], 6), vec![0x7F, 0x20, 0x0C]);
}

#[test]
fn code_bytes_per_vector() {
    assert_eq!(bytes_per_vector(512, 4), 256);
    assert_eq!(bytes_per_vector(1024, 5), 640);
    assert_eq!(bytes_per_vector(1024, 6), 768);
    assert_eq!(bytes_per_vector(1, 4), 0);
    assert_eq!(bytes_per_vector(1, 5), 1);
    assert_eq!(bytes_per_vector(2, 5), 2);
}

#[test]
fn packed_codes_read_back() {
    for bits in [4u8, 5, 6] {
        let top = 1u32 << bits;
        for n in [2usize, 7, 8, 16, 64].into_iter().filter(|n| bits > 4 || n % 2 == 0) {
            let codes: Vec<u8> = (0..n).map(|i| ((i as u32 * 29 + 3) % top) as u8).collect();
            let bytes = pack(&codes, bits);
            assert_eq!(bytes.len(), bytes_per_vector(n, bits));
            for (i, &c) in codes.iter().enumerate() {
                assert_eq!(read_code(&bytes, bits, i), c);
            }
        }
    }
}
