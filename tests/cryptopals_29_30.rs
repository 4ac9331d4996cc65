use brykto::extension::{forge_md4, forge_sha1, ForgeError};
use brykto::hasher::{md4, md_padding_64, sha1, Endian};

#[test]
fn challenge_29() {
    let secret_key = "spooky";
    let message = "comment1=cooking%20MCs;userdata=foo;comment2=%20like%20a%20pound%20of%20bacon";

    // MAC using a key prefix: H(K, m).
    let mac = sha1([secret_key, message].concat().as_str());

    // Output of the MAC will be used as the IV to implement length
    // extension.
    let mut iv: (u32, u32, u32, u32, u32) = (0, 0, 0, 0, 0);
    let to_32bit: Vec<_> = mac
        .chunks(4)
        .map(|chunk| {
            let to_32_bit: [u8; 4] = [chunk[0], chunk[1], chunk[2], chunk[3]];
            u32::from_be_bytes(to_32_bit)
        })
        .collect();
    iv.0 = to_32bit[0];
    iv.1 = to_32bit[1];
    iv.2 = to_32bit[2];
    iv.3 = to_32bit[3];
    iv.4 = to_32bit[4];

    let attacker_message = ";admin=true";
    let mut attacker_mac: [u8; 20];
    let mut expected_keyed_mac: [u8; 20];
    let mut found_match = false;
    for i in 1..40 {
        // I know the message but I don't know the secret key.
        let glue_padding = md_padding_64(i + message.len(), Endian::Big);
        let total_length = i + message.len() + glue_padding.len() + attacker_message.len();
        attacker_mac = brykto::hasher::sha1::hash_core(attacker_message, total_length, iv);

        expected_keyed_mac = sha1(
            [
                secret_key.as_bytes(),
                message.as_bytes(),
                glue_padding.as_slice(),
                attacker_message.as_bytes(),
            ]
            .concat()
            .as_slice(),
        );

        found_match = attacker_mac == expected_keyed_mac;
        if found_match {
            println!(
                "Found with secret key length {}!\nATTACKER_MAC: {:02X?}\nNEW_MAC: {:02X?}\n",
                i, attacker_mac, expected_keyed_mac
            );
            break;
        }
    }
    assert!(found_match)
}

#[test]
fn challenge_30() {
    let secret_key = "veryspooky";
    let message = "comment1=cooking%20MCs;userdata=foo;comment2=%20like%20a%20pound%20of%20bacon";

    // MAC using a key prefix: H(K, m).
    let mac = md4([secret_key, message].concat().as_str());

    // Output of the MAC will be used as the IV to implement length
    // extension.
    let mut iv: (u32, u32, u32, u32) = (0, 0, 0, 0);
    let to_32bit: Vec<_> = mac
        .chunks(4)
        .map(|chunk| {
            let to_32_bit: [u8; 4] = [chunk[0], chunk[1], chunk[2], chunk[3]];
            u32::from_le_bytes(to_32_bit)
        })
        .collect();
    iv.0 = to_32bit[0];
    iv.1 = to_32bit[1];
    iv.2 = to_32bit[2];
    iv.3 = to_32bit[3];

    let attacker_message = ";admin=true";
    let mut attacker_mac: [u8; 16];
    let mut expected_keyed_mac: [u8; 16];
    let mut found_match = false;
    for i in 1..40 {
        // I know the message but I don't know the secret key.
        let glue_padding = md_padding_64(i + message.len(), Endian::Little);
        let total_length = i + message.len() + glue_padding.len() + attacker_message.len();
        attacker_mac = brykto::hasher::md4::hash_core(attacker_message, total_length, iv);

        expected_keyed_mac = md4([
            secret_key.as_bytes(),
            message.as_bytes(),
            glue_padding.as_slice(),
            attacker_message.as_bytes(),
        ]
        .concat()
        .as_slice());

        found_match = attacker_mac == expected_keyed_mac;
        if found_match {
            println!(
                "Found with secret key length {}!\nATTACKER_MAC: {:02X?}\nNEW_MAC: {:02X?}\n",
                i, attacker_mac, expected_keyed_mac
            );
            break;
        }
    }
    assert!(found_match)
}

const MESSAGE: &str = "comment1=cooking%20MCs;userdata=foo;comment2=%20like%20a%20pound%20of%20bacon";

#[test]
fn forge_sha1_finds_key_length_six() {
    let key = "spooky";
    let mac = sha1([key, MESSAGE].concat().as_str());
    let oracle = |d: &Vec<u8>| sha1([key.as_bytes(), d.as_slice()].concat().as_slice());
    let forgery = forge_sha1(&mac, MESSAGE.as_bytes(), b";admin=true", 1, 40, oracle).unwrap();
    assert_eq!(forgery.key_length, 6);
    assert_eq!(forgery.forged_mac, forgery.oracle_mac);
    assert!(forgery.message.starts_with(MESSAGE.as_bytes()));
    assert!(forgery.message.ends_with(b";admin=true"));
    assert_eq!(forgery.message[MESSAGE.len()], 0x80);
    assert_eq!((key.len() + forgery.message.len() - 11) % 64, 0);
}

#[test]
fn forge_md4_finds_key_length_ten() {
    let key = "veryspooky";
    let mac = md4([key, MESSAGE].concat().as_str());
    let oracle = |d: &Vec<u8>| md4([key.as_bytes(), d.as_slice()].concat().as_slice());
    let forgery = forge_md4(&mac, MESSAGE.as_bytes(), b";admin=true", 1, 40, oracle).unwrap();
    assert_eq!(forgery.key_length, 10);
    assert_eq!(forgery.forged_mac, forgery.oracle_mac);
    assert!(forgery.message.ends_with(b";admin=true"));
}

#[test]
fn forge_finds_key_filling_a_block_exactly() {
    // key and message fill 55 bytes: the glue is the marker and length only.
    let key = [7u8; 23];
    let message = [b'm'; 32];
    let mac = sha1([key.as_slice(), message.as_slice()].concat().as_slice());
    let oracle = |d: &Vec<u8>| sha1([key.as_slice(), d.as_slice()].concat().as_slice());
    let forgery = forge_sha1(&mac, &message, b"x", 1, 40, oracle).unwrap();
    assert_eq!(forgery.key_length, 23);
    assert_eq!(forgery.message.len(), 32 + 9 + 1);
}

#[test]
fn forge_reports_search_exhausted() {
    let key = "a key of more than ten bytes";
    let mac = sha1([key, MESSAGE].concat().as_str());
    let oracle = |d: &Vec<u8>| sha1([key.as_bytes(), d.as_slice()].concat().as_slice());
    let result = forge_sha1(&mac, MESSAGE.as_bytes(), b";admin=true", 1, 10, oracle);
    assert_eq!(result.err(), Some(ForgeError::SearchExhausted));
}

#[test]
fn forge_refuses_mac_of_wrong_length() {
    let oracle = |d: &Vec<u8>| md4(d.as_slice());
    let result = forge_md4(&[0u8; 20], MESSAGE.as_bytes(), b"x", 1, 40, oracle);
    assert_eq!(result.err(), Some(ForgeError::DigestLength));
    let oracle = |d: &Vec<u8>| sha1(d.as_slice());
    let result = forge_sha1(&[0u8; 16], MESSAGE.as_bytes(), b"x", 1, 40, oracle);
    assert_eq!(result.err(), Some(ForgeError::DigestLength));
}
