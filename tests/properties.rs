use brykto::hasher::{md4, sha1, sha512_n, truncate_reversed};

const SHA1_IV: (u32, u32, u32, u32, u32) = (0x67452301, 0xEFCDAB89, 0x98BADCFE, 0x10325476, 0xC3D2E1F0);
const MD4_IV: (u32, u32, u32, u32) = (0x67452301, 0xEFCDAB89, 0x98BADCFE, 0x10325476);

#[test]
fn resumable_form_reduces_to_standalone() {
    for text in ["", "a", "The quick brown fox jumps over the lazy dog"] {
        assert_eq!(brykto::hasher::sha1::hash_core(text, text.len(), SHA1_IV), sha1(text));
        assert_eq!(brykto::hasher::md4::hash_core(text, text.len(), MD4_IV), md4(text));
        assert_eq!(brykto::hasher::sha1::default(text), sha1(text));
        assert_eq!(brykto::hasher::md4::default(text), md4(text));
    }
}

#[test]
fn hashing_is_deterministic() {
    let bytes: Vec<u8> = (0..200u32).map(|i| (i * 7) as u8).collect();
    assert_eq!(sha1(bytes.as_slice()), sha1(bytes.as_slice()));
    assert_eq!(md4(bytes.as_slice()), md4(bytes.as_slice()));
}

#[test]
fn equal_length_inputs_give_distinct_digests() {
    assert_ne!(sha1("abc"), sha1("abd"));
    assert_ne!(md4("abc"), md4("abd"));
    assert_ne!(sha1([0u8; 64].as_slice()), sha1([1u8; 64].as_slice()));
    assert_ne!(md4([0u8; 64].as_slice()), md4([1u8; 64].as_slice()));
}

#[test]
fn str_and_bytes_hash_alike() {
    assert_eq!(sha1("abc"), sha1(b"abc".as_slice()));
    assert_eq!(md4("abc"), md4(b"abc".as_slice()));
}

#[test]
fn known_answers_abc() {
    assert_eq!(
        sha1("abc"),
        [
            0xA9, 0x99, 0x3E, 0x36, 0x47, 0x06, 0x81, 0x6A, 0xBA, 0x3E, 0x25, 0x71, 0x78, 0x50,
            0xC2, 0x6C, 0x9C, 0xD0, 0xD8, 0x9D
        ]
    );
    assert_eq!(
        md4("abc"),
        [
            0xA4, 0x48, 0x01, 0x7A, 0xAF, 0x21, 0xD8, 0x52, 0x5F, 0xC1, 0x0A, 0xE8, 0x7A, 0xA6,
            0x72, 0x9D
        ]
    );
}

#[test]
fn resuming_from_another_state_changes_the_digest() {
    let iv = (1, 2, 3, 4, 5);
    assert_ne!(brykto::hasher::sha1::hash_core("abc", 3, iv), sha1("abc"));
    // A logical length other than the message's changes the padding.
    assert_ne!(brykto::hasher::md4::hash_core("abc", 67, MD4_IV), md4("abc"));
}

#[test]
fn test_sha512_n() {
    let test_vec: Vec<u8> = vec![1];
    let hash_of_test_vec = sha512_n(test_vec.as_slice(), 10);
    assert_eq!(hash_of_test_vec.len(), 6);

    let other_hash_of_test_vec = sha512_n(test_vec.as_slice(), 6);
    let another_hash = sha512_n(vec![2].as_slice(), 6);

    assert_eq!(hash_of_test_vec, other_hash_of_test_vec);
    assert_ne!(another_hash, other_hash_of_test_vec);
}

#[test]
fn sha512_n_of_abc() {
    // SHA-512("abc") ends in ... 2a 9a c9 4f a5 4c a4 9f.
    assert_eq!(sha512_n(b"abc", 4), vec![0x9f, 0xa4, 0x4c, 0xa5]);
    assert_eq!(sha512_n(b"abc", 0), Vec::<u8>::new());
}

#[test]
fn truncate_reversed_takes_from_the_end() {
    let d: Vec<u8> = (1..=10).collect();
    assert_eq!(truncate_reversed(&d, 3), vec![10, 9, 8]);
    assert_eq!(truncate_reversed(&d, 100), vec![10, 9, 8, 7, 6, 5]);
    assert_eq!(truncate_reversed(&vec![1, 2], 5), vec![2, 1]);
}
