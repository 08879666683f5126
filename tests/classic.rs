use toy_ciphers::base64::{simple_base64_decode, simple_base64_encode};
use toy_ciphers::hexstr::bytes_to_hex;
use toy_ciphers::text::{caesar_decrypt, caesar_encrypt, rot13};
use toy_ciphers::xor::{xor_decrypt, xor_encrypt, SimpleEncryption};

#[test]
fn test_caesar_cipher() {
    let original = "Hello";
    let encrypted = caesar_encrypt(original, 3);
    let decrypted = caesar_decrypt(&encrypted, 3);
    assert_eq!(original, decrypted);
}

#[test]
fn test_xor_cipher() {
    let original = b"Secret Message";
    let key = b"Key";
    let encrypted = xor_encrypt(original, key);
    let decrypted = xor_decrypt(&encrypted, key);
    assert_eq!(original, &decrypted[..]);
}

#[test]
fn test_rot13() {
    let original = "Hello World";
    let encoded = rot13(original);
    let decoded = rot13(&encoded);
    assert_eq!(original, decoded);
}

#[test]
fn test_simple_encryption_struct() {
    let cipher = SimpleEncryption::new("MySecretKey");
    let original = b"This is a test message";
    let encrypted = cipher.encrypt(original);
    let decrypted = cipher.decrypt(&encrypted);
    assert_eq!(original, &decrypted[..]);
}

#[test]
fn caesar_shift_three_on_hello() {
    assert_eq!(caesar_encrypt("Hello", 3), "Khoor");
    assert_eq!(caesar_decrypt("Khoor", 3), "Hello");
}

#[test]
fn caesar_keeps_non_ascii_and_punctuation() {
    assert_eq!(caesar_encrypt("λ Zz, 9!", 1), "λ Aa, 9!");
    assert_eq!(caesar_decrypt("λ Aa, 9!", 1), "λ Zz, 9!");
}

#[test]
fn rot13_vector_and_twice() {
    assert_eq!(rot13("Hello World"), "Uryyb Jbeyq");
    assert_eq!(rot13(&rot13("Hello World")), "Hello World");
    assert_eq!(rot13(""), "");
}

#[test]
fn xor_free_function_exact_bytes() {
    assert_eq!(xor_encrypt(b"abc", b"\x01"), b"`cb".to_vec());
    assert_eq!(xor_decrypt(b"`cb", b"\x01"), b"abc".to_vec());
}

#[test]
fn simple_encryption_changes_the_bytes() {
    let cipher = SimpleEncryption::new("k");
    assert_eq!(cipher.encrypt(b"k"), vec![0u8]);
}

#[test]
fn base64_encodes_with_padding() {
    assert_eq!(simple_base64_encode(b""), "");
    assert_eq!(simple_base64_encode(b"M"), "TQ==");
    assert_eq!(simple_base64_encode(b"Ma"), "TWE=");
    assert_eq!(simple_base64_encode(b"Man"), "TWFu");
    assert_eq!(simple_base64_encode(b"Hello, Base64 World!"), "SGVsbG8sIEJhc2U2NCBXb3JsZCE=");
    assert_eq!(simple_base64_encode(&[0xfb, 0xff]), "+/8=");
}

#[test]
fn base64_decodes() {
    assert_eq!(simple_base64_decode("TQ=="), b"M".to_vec());
    assert_eq!(simple_base64_decode("TWE="), b"Ma".to_vec());
    assert_eq!(simple_base64_decode("TWFu"), b"Man".to_vec());
    assert_eq!(simple_base64_decode("SGVsbG8sIEJhc2U2NCBXb3JsZCE="), b"Hello, Base64 World!".to_vec());
    assert_eq!(simple_base64_decode("+/8="), vec![0xfb, 0xff]);
}

#[test]
fn base64_decode_edge_cases() {
    assert!(simple_base64_decode("").is_empty());
    // A lone trailing character is ignored.
    assert_eq!(simple_base64_decode("TWFuT"), b"Man".to_vec());
    // Characters outside the alphabet count as zero.
    assert_eq!(simple_base64_decode("**"), vec![0u8]);
    // Padding is skipped wherever it stands.
    assert_eq!(simple_base64_decode("T=W=F=u"), b"Man".to_vec());
}

#[test]
fn hex_renders_two_lowercase_digits_per_byte() {
    assert_eq!(bytes_to_hex(&[]), "");
    assert_eq!(bytes_to_hex(&[0x00, 0x0f, 0xa0, 0xff]), "000fa0ff");
}

#[test]
fn base64_round_trips_all_tail_lengths() {
    let data: Vec<u8> = (0u8..=255).collect();
    for n in [0usize, 1, 2, 3, 4, 5, 6, 7, 100, 256] {
        let part = &data[..n];
        assert_eq!(simple_base64_decode(&simple_base64_encode(part)), part.to_vec());
    }
}

#[test]
fn caesar_full_alphabet_wraps() {
    assert_eq!(
        caesar_encrypt("abcdefghijklmnopqrstuvwxyz ABCDEFGHIJKLMNOPQRSTUVWXYZ", 13),
        "nopqrstuvwxyzabcdefghijklm NOPQRSTUVWXYZABCDEFGHIJKLM"
    );
    assert_eq!(caesar_encrypt("abc", 0), "abc");
    assert_eq!(caesar_decrypt("abc", 26), "abc");
}
