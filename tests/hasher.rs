use brykto::hasher::{md4, sha1};

#[test]
fn test_sha1() {
    let empty_output = sha1("");
    let dog_output = sha1("The quick brown fox jumps over the lazy dog");
    let cog_output = sha1("The quick brown fox jumps over the lazy cog");
    let long_output = sha1(
        "abcdefghbcdefghicdefghijdefghijkefghijklfghijklmghijklmn\
        hijklmnoijklmnopjklmnopqklmnopqrlmnopqrsmnopqrstnopqrstu",
    );
    let edge_case_output = sha1(
        [
            99, 26, 143, 85, 115, 125, 249, 19, 75, 135, 222, 119, 109, 98, 105, 96, 2, 41, 217,
            139, 169, 160, 123, 50, 113, 131, 231, 95, 116, 91, 204, 125, 57, 255, 248, 23, 109,
            181, 125, 51, 155, 185, 229, 133, 69, 150, 225, 19, 208, 36, 183, 214, 2, 145, 252,
        ]
        .as_slice(),
    );

    let expected_empty_output: [u8; 20] = [
        0xDA, 0x39, 0xA3, 0xEE, 0x5E, 0x6B, 0x4B, 0x0D, 0x32, 0x55, 0xBF, 0xEF, 0x95, 0x60, 0x18,
        0x90, 0xAF, 0xD8, 0x07, 0x09,
    ];
    let expected_dog_output: [u8; 20] = [
        0x2F, 0xD4, 0xE1, 0xC6, 0x7A, 0x2D, 0x28, 0xFC, 0xED, 0x84, 0x9E, 0xE1, 0xBB, 0x76, 0xE7,
        0x39, 0x1B, 0x93, 0xEB, 0x12,
    ];
    let expected_cog_output: [u8; 20] = [
        0xDE, 0x9F, 0x2C, 0x7F, 0xD2, 0x5E, 0x1B, 0x3A, 0xFA, 0xD3, 0xE8, 0x5A, 0x0B, 0xD1, 0x7D,
        0x9B, 0x10, 0x0D, 0xB4, 0xB3,
    ];
    let expected_long_output: [u8; 20] = [
        0xA4, 0x9B, 0x24, 0x46, 0xA0, 0x2C, 0x64, 0x5B, 0xF4, 0x19, 0xF9, 0x95, 0xB6, 0x70, 0x91,
        0x25, 0x3A, 0x04, 0xA2, 0x59,
    ];
    let expected_edge_case_output: [u8; 20] = [
        0x03, 0x17, 0xE3, 0x8D, 0x99, 0xCD, 0xBA, 0x10, 0xF6, 0x05, 0x77, 0x6B, 0xF3, 0xCF, 0xCD,
        0x89, 0xBC, 0xDE, 0x76, 0xBB,
    ];

    assert_eq!(empty_output, expected_empty_output);
    assert_eq!(dog_output, expected_dog_output);
    assert_eq!(cog_output, expected_cog_output);
    assert_eq!(long_output, expected_long_output);
    assert_eq!(edge_case_output, expected_edge_case_output);
}

#[test]
fn test_md4() {
    let empty_output = md4("");
    let a_output = md4("a");
    let medium_output = md4("abcdefghijklmnopqrstuvwxyz");
    let long_output = md4("ABCDEFGHIJKLMNOPQRSTUVWXYZabcdefghijklmnopqrstuvwxyz0123456789");
    let edge_case_output = md4(
        [
            99, 26, 143, 85, 115, 125, 249, 19, 75, 135, 222, 119, 109, 98, 105, 96, 2, 41, 217,
            139, 169, 160, 123, 50, 113, 131, 231, 95, 116, 91, 204, 125, 57, 255, 248, 23, 109,
            181, 125, 51, 155, 185, 229, 133, 69, 150, 225, 19, 208, 36, 183, 214, 2, 145, 252,
        ]
        .as_slice(),
    );

    let expected_empty_output: [u8; 16] = [
        0x31, 0xD6, 0xCF, 0xE0, 0xD1, 0x6A, 0xE9, 0x31, 0xB7, 0x3C, 0x59, 0xD7, 0xE0, 0xC0, 0x89,
        0xC0,
    ];
    let expected_a_output: [u8; 16] = [
        0xBD, 0xE5, 0x2C, 0xB3, 0x1D, 0xE3, 0x3E, 0x46, 0x24, 0x5E, 0x05, 0xFB, 0xDB, 0xD6, 0xFB,
        0x24,
    ];
    let expected_medium_output: [u8; 16] = [
        0xD7, 0x9E, 0x1C, 0x30, 0x8A, 0xA5, 0xBB, 0xCD, 0xEE, 0xA8, 0xED, 0x63, 0xDF, 0x41, 0x2D,
        0xA9,
    ];
    let expected_long_output: [u8; 16] = [
        0x04, 0x3F, 0x85, 0x82, 0xF2, 0x41, 0xDB, 0x35, 0x1C, 0xE6, 0x27, 0xE1, 0x53, 0xE7, 0xF0,
        0xE4,
    ];
    let expected_edge_case_output: [u8; 16] = [
        0x67, 0x04, 0xB8, 0x49, 0x3D, 0xDC, 0x39, 0x94, 0x82, 0xF0, 0x48, 0x5F, 0x73, 0x1E, 0x64,
        0x63,
    ];

    assert_eq!(empty_output, expected_empty_output);
    assert_eq!(a_output, expected_a_output);
    assert_eq!(medium_output, expected_medium_output);
    assert_eq!(long_output, expected_long_output);
    assert_eq!(edge_case_output, expected_edge_case_output);
}
