use the_algorithms::sha256;

#[test]
fn sha256_empty() {
    assert_eq!(
        sha256(&Vec::new()),
        [
            0xe3, 0xb0, 0xc4, 0x42, 0x98, 0xfc, 0x1c, 0x14, 0x9a, 0xfb, 0xf4, 0xc8, 0x99, 0x6f,
            0xb9, 0x24, 0x27, 0xae, 0x41, 0xe4, 0x64, 0x9b, 0x93, 0x4c, 0xa4, 0x95, 0x99, 0x1b,
            0x78, 0x52, 0xb8, 0x55
        ]
    );
}

#[test]
fn ascii() {
    assert_eq!(
        sha256(&b"The quick brown fox jumps over the lazy dog".to_vec()),
        [
            0xD7, 0xA8, 0xFB, 0xB3, 0x07, 0xD7, 0x80, 0x94, 0x69, 0xCA, 0x9A, 0xBC, 0xB0, 0x08,
            0x2E, 0x4F, 0x8D, 0x56, 0x51, 0xE4, 0x6D, 0x3C, 0xDB, 0x76, 0x2D, 0x02, 0xD0, 0xBF,
            0x37, 0xC9, 0xE5, 0x92
        ]
    )
}

#[test]
fn ascii_avalanche() {
    assert_eq!(
        sha256(&b"The quick brown fox jumps over the lazy dog.".to_vec()),
        [
            0xEF, 0x53, 0x7F, 0x25, 0xC8, 0x95, 0xBF, 0xA7, 0x82, 0x52, 0x65, 0x29, 0xA9, 0xB6,
            0x3D, 0x97, 0xAA, 0x63, 0x15, 0x64, 0xD5, 0xD7, 0x89, 0xC2, 0xB7, 0x65, 0x44, 0x8C,
            0x86, 0x35, 0xFB, 0x6C
        ]
    )
}

#[test]
fn sha256_long_input() {
    // more than two chunks, exercising the full-chunk path
    let data = vec![0x61u8; 130];
    let digest = sha256(&data);
    assert_eq!(
        digest,
        [
            0x1e, 0x3c, 0x4f, 0x47, 0x50, 0xc8, 0xc2, 0x9b, 0xbf, 0xa9, 0xce, 0xd3, 0x17, 0x78,
            0x81, 0x76, 0xb1, 0x56, 0xd3, 0x42, 0xe5, 0x7f, 0x77, 0x77, 0xf6, 0x2f, 0xd7, 0x22,
            0x1a, 0x44, 0x31, 0x2f
        ]
    )
}
