use raven_oss_tools::crypto::{
    decrypt, default_aad, default_nonce, default_salt, derive_key, encrypt, setup_key, ChunkCodec,
};
use raven_oss_tools::errors::CryptoError;

#[test]
fn test_crypt() {
    let password = b"PASSWORD";
    let salt = b"SALT";
    let secret = derive_key(password, salt);
    let payload = "Hello World!";
    let payload_u8 = payload.as_bytes();

    let key = ChunkCodec::new(secret, default_nonce(), default_aad());

    let encrypt_data = encrypt(payload_u8, &key).unwrap();
    let decrypt_data = decrypt(&encrypt_data, &key).unwrap();

    assert_eq!(payload.as_bytes(), &decrypt_data[..payload.len()])
}

#[test]
fn test_derive_key_deterministic() {
    let k1 = derive_key(b"same password", b"same salt");
    let k2 = derive_key(b"same password", b"same salt");
    assert_eq!(k1, k2);
    assert_eq!(k1.len(), 32);
}

#[test]
fn test_derive_key_differs_per_password() {
    let k1 = derive_key(b"password one", b"salt");
    let k2 = derive_key(b"password two", b"salt");
    assert_ne!(k1, k2);
}

#[test]
fn test_setup_key_uses_fixed_salt() {
    let c1 = setup_key("RAVEN_BOOK");
    let c2 = setup_key("RAVEN_BOOK");
    assert_eq!(c1.key, c2.key);
    assert_eq!(c1.key.len(), 32);
    assert_eq!(c1.nonce, vec![200u8; 12]);
    assert_eq!(c1.aad, b"cfaf0256-beec-4495-9175-b9800dd2e2d7".to_vec());
    assert_eq!(default_salt(), b"5462d05a-cbf4-465a-956f-2b98770beabb".to_vec());
}

#[test]
fn test_seal_appends_tag() {
    let codec = setup_key("pw");
    let sealed = codec.seal(b"abc").unwrap();
    assert_eq!(sealed.len(), 3 + 16);
}

#[test]
fn test_tamper_detection() {
    let codec = setup_key("pw");
    let sealed = codec.seal(b"HELLO WORLD!").unwrap();
    for i in 0..sealed.len() {
        let mut corrupted = sealed.clone();
        corrupted[i] ^= 0x01;
        let r = codec.open(&corrupted);
        assert_eq!(r, Err(CryptoError::AuthenticationFailed));
    }
}

#[test]
fn test_wrong_password_fails_closed() {
    let right = setup_key("right password");
    let wrong = setup_key("wrong password");
    let sealed = right.seal(b"secret payload").unwrap();
    assert_eq!(wrong.open(&sealed), Err(CryptoError::AuthenticationFailed));
}

#[test]
fn test_empty_payload_round_trip() {
    let codec = setup_key("pw");
    let sealed = codec.seal(b"").unwrap();
    assert_eq!(sealed.len(), 16);
    let opened = codec.open(&sealed).unwrap();
    assert!(opened.is_empty());
}
