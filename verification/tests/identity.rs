use thronglets::identity::{encode, KeyFileError, NodeIdentity};

#[test]
fn generate_and_sign() {
    let id = NodeIdentity::generate();
    let msg = b"hello thronglets";
    let sig = id.sign(msg);
    assert!(NodeIdentity::verify(&id.public_key_bytes(), msg, &sig));
}

#[test]
fn verify_rejects_wrong_message() {
    let id = NodeIdentity::generate();
    let sig = id.sign(b"correct");
    assert!(!NodeIdentity::verify(&id.public_key_bytes(), b"wrong", &sig));
}

#[test]
fn oasyce_address_format() {
    let id = NodeIdentity::generate();
    let addr = id.oasyce_address();
    assert!(addr.starts_with("oasyce1"));
}

#[test]
fn short_id_is_8_chars() {
    let id = NodeIdentity::generate();
    assert_eq!(id.short_id().len(), 8);
}

#[test]
fn key_file_must_hold_32_bytes() {
    assert!(matches!(NodeIdentity::from_key_file(&[7u8; 31]), Err(KeyFileError::WrongLength)));
    assert!(matches!(NodeIdentity::from_key_file(&[7u8; 33]), Err(KeyFileError::WrongLength)));
    let id = NodeIdentity::from_key_file(&[7u8; 32]).unwrap();
    assert_eq!(id.secret_key_bytes(), [7u8; 32]);
    let again = NodeIdentity::from_secret_bytes([7u8; 32]);
    assert_eq!(id.public_key_bytes(), again.public_key_bytes());
}

#[test]
fn rfc8032_public_key_and_signature() {
    // RFC 8032, section 7.1, test 1.
    let secret: [u8; 32] = [
        0x9d, 0x61, 0xb1, 0x9d, 0xef, 0xfd, 0x5a, 0x60, 0xba, 0x84, 0x4a, 0xf4, 0x92, 0xec, 0x2c, 0xc4, 0x44, 0x49,
        0xc5, 0x69, 0x7b, 0x32, 0x69, 0x19, 0x70, 0x3b, 0xac, 0x03, 0x1c, 0xae, 0x7f, 0x60,
    ];
    let id = NodeIdentity::from_secret_bytes(secret);
    assert_eq!(
        encode(&id.public_key_bytes()),
        "d75a980182b10ab7d54bfed3c964073a0ee172f3daa62325af021a68f707511a"
    );
    assert_eq!(id.short_id(), "d75a9801");
    let sig = id.sign(b"");
    assert_eq!(
        encode(&sig),
        "e5564300c360ac729086e2cc806e828a84877f1eb8e5d974d873e065224901555fb8821590a33bacc61e39701cf9b46bd25bf5f0595bbe24655141438e7a100b"
    );
    assert!(NodeIdentity::verify(&id.public_key_bytes(), b"", &sig));
    let mut bad = sig;
    bad[0] ^= 1;
    assert!(!NodeIdentity::verify(&id.public_key_bytes(), b"", &bad));
}

#[test]
fn address_of_known_key() {
    let id = NodeIdentity::from_secret_bytes([1u8; 32]);
    let addr = id.oasyce_address();
    assert!(addr.starts_with("oasyce1"));
    // bech32 of a 20-byte payload: prefix, separator, 32 data and 6 checksum characters.
    assert_eq!(addr.len(), "oasyce1".len() + 32 + 6);
    assert_eq!(addr, NodeIdentity::from_secret_bytes([1u8; 32]).oasyce_address());
    assert_ne!(addr, NodeIdentity::from_secret_bytes([2u8; 32]).oasyce_address());
}

#[test]
fn hex_encoding() {
    assert_eq!(encode(&[]), "");
    assert_eq!(encode(&[0x00, 0x0f, 0xa0, 0xff]), "000fa0ff");
}
