use toy_ciphers::engine::{CipherError, CipherType, EncryptionManager};

#[test]
fn test_encryption_manager_caesar() {
    let manager = EncryptionManager::new(CipherType::Caesar(5), "").unwrap();
    let original = b"Hello World";
    let encrypted = manager.encrypt(original);
    let decrypted = manager.decrypt(&encrypted);
    assert_eq!(original, &decrypted[..]);
}

#[test]
fn test_encryption_manager_xor() {
    let manager = EncryptionManager::new(CipherType::XOR, "testkey").unwrap();
    let original = b"Secret message for testing";
    let encrypted = manager.encrypt(original);
    let decrypted = manager.decrypt(&encrypted);
    assert_eq!(original, &decrypted[..]);
}

#[test]
fn test_encryption_manager_vigenere() {
    let manager = EncryptionManager::new(CipherType::Vigenere, "KEY").unwrap();
    let original = b"Hello World";
    let encrypted = manager.encrypt(original);
    let decrypted = manager.decrypt(&encrypted);
    assert_eq!(original, &decrypted[..]);
}

#[test]
fn test_different_algorithms_produce_different_results() {
    let original = b"Test message";

    let caesar = EncryptionManager::new(CipherType::Caesar(3), "").unwrap();
    let xor = EncryptionManager::new(CipherType::XOR, "key").unwrap();
    let vigenere = EncryptionManager::new(CipherType::Vigenere, "KEY").unwrap();

    let caesar_encrypted = caesar.encrypt(original);
    let xor_encrypted = xor.encrypt(original);
    let vigenere_encrypted = vigenere.encrypt(original);

    assert_ne!(original, &caesar_encrypted[..]);
    assert_ne!(original, &xor_encrypted[..]);
    assert_ne!(original, &vigenere_encrypted[..]);

    assert_ne!(caesar_encrypted, xor_encrypted);
    assert_ne!(caesar_encrypted, vigenere_encrypted);
    assert_ne!(xor_encrypted, vigenere_encrypted);
}

#[test]
fn empty_key_is_rejected_for_keyed_algorithms() {
    assert_eq!(EncryptionManager::new(CipherType::XOR, "").err(), Some(CipherError::InvalidKey));
    assert_eq!(
        EncryptionManager::new(CipherType::Vigenere, "").err(),
        Some(CipherError::InvalidKey)
    );
    assert!(EncryptionManager::new(CipherType::Caesar(0), "").is_ok());
}

#[test]
fn caesar_engine_shift_three() {
    let m = EncryptionManager::new(CipherType::Caesar(3), "").unwrap();
    assert_eq!(m.encrypt(b"Hello"), b"Khoor".to_vec());
    assert_eq!(m.decrypt(b"Khoor"), b"Hello".to_vec());
    assert_eq!(m.encrypt(b"xyz XYZ"), b"abc ABC".to_vec());
}

#[test]
fn caesar_engine_shift_zero_and_twenty_six_change_nothing() {
    for shift in [0u8, 26u8] {
        let m = EncryptionManager::new(CipherType::Caesar(shift), "").unwrap();
        assert_eq!(m.encrypt(b"Hello, World"), b"Hello, World".to_vec());
        assert_eq!(m.decrypt(b"Hello, World"), b"Hello, World".to_vec());
    }
}

#[test]
fn caesar_engine_large_shift_wraps_modulo_26() {
    let m = EncryptionManager::new(CipherType::Caesar(29), "").unwrap();
    assert_eq!(m.encrypt(b"abc"), b"def".to_vec());
    assert_eq!(m.decrypt(b"def"), b"abc".to_vec());
}

#[test]
fn xor_engine_exact_bytes() {
    let m = EncryptionManager::new(CipherType::XOR, "ab").unwrap();
    assert_eq!(m.encrypt(&[0u8, 0, 0, 0xff]), vec![0x61, 0x62, 0x61, 0x9d]);
}

#[test]
fn xor_engine_applied_twice_restores_input() {
    let m = EncryptionManager::new(CipherType::XOR, "K3y!").unwrap();
    let p = b"any bytes \x00\x01\xfe at all".to_vec();
    assert_eq!(m.encrypt(&m.encrypt(&p)), p);
}

#[test]
fn vigenere_engine_exact_vector() {
    let m = EncryptionManager::new(CipherType::Vigenere, "KEY").unwrap();
    // H+K, e+E, l+Y, l+K, o+E, ' ' unchanged (advances the key), W+K, ...
    assert_eq!(m.encrypt(b"Hello World"), b"Rijvs Gspvh".to_vec());
    assert_eq!(m.decrypt(b"Rijvs Gspvh"), b"Hello World".to_vec());
}

#[test]
fn vigenere_engine_lowercase_and_non_letter_key_bytes() {
    let lower = EncryptionManager::new(CipherType::Vigenere, "b").unwrap();
    assert_eq!(lower.encrypt(b"az"), b"ba".to_vec());
    // '1' is 49, and 49 mod 26 is 23.
    let digit = EncryptionManager::new(CipherType::Vigenere, "1").unwrap();
    assert_eq!(digit.encrypt(b"a"), b"x".to_vec());
}

#[test]
fn non_letters_pass_through_caesar_and_vigenere() {
    let p = b"0123 !?.,-_ 987".to_vec();
    let c = EncryptionManager::new(CipherType::Caesar(7), "").unwrap();
    let v = EncryptionManager::new(CipherType::Vigenere, "RUST").unwrap();
    assert_eq!(c.encrypt(&p), p);
    assert_eq!(v.encrypt(&p), p);
}

#[test]
fn case_pattern_is_preserved() {
    let c = EncryptionManager::new(CipherType::Caesar(3), "").unwrap();
    let v = EncryptionManager::new(CipherType::Vigenere, "KEY").unwrap();
    for out in [c.encrypt(b"AbC"), v.encrypt(b"AbC")] {
        assert!(out[0].is_ascii_uppercase());
        assert!(out[1].is_ascii_lowercase());
        assert!(out[2].is_ascii_uppercase());
    }
}

#[test]
fn empty_input_round_trips() {
    for m in [
        EncryptionManager::new(CipherType::Caesar(4), "").unwrap(),
        EncryptionManager::new(CipherType::XOR, "k").unwrap(),
        EncryptionManager::new(CipherType::Vigenere, "k").unwrap(),
    ] {
        assert!(m.encrypt(b"").is_empty());
        assert!(m.decrypt(b"").is_empty());
    }
}
