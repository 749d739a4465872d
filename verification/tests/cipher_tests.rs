use chacha20poly1305::aead::{Aead, KeyInit};
use silicon_trust::fingerprint::DerivedKey;
use silicon_trust::cipher::{
    decrypt, encrypt_with_salt, extract_salt, CipherError, HEADER_LEN, MAGIC, NONCE_LEN, SALT_LEN,
};

fn key(b: u8) -> DerivedKey {
    DerivedKey([b; 32])
}

#[test]
fn header_layout_constants() {
    assert_eq!(MAGIC, *b"HEC\x01");
    assert_eq!(SALT_LEN, 16);
    assert_eq!(NONCE_LEN, 24);
    assert_eq!(HEADER_LEN, 44);
}

#[test]
fn encrypt_then_decrypt_gives_plaintext_back() {
    let k = key(7);
    let salt = [3u8; 16];
    let pt = b"hello, silicon".to_vec();
    let blob = encrypt_with_salt(&k, &salt, &pt);
    let mut k2 = key(7);
    assert_eq!(decrypt(&mut k2, &blob).unwrap(), pt);
}

#[test]
fn decrypt_wipes_key_on_success() {
    let k = key(9);
    let blob = encrypt_with_salt(&k, &[1u8; 16], b"data");
    let mut k2 = key(9);
    decrypt(&mut k2, &blob).unwrap();
    assert_eq!(k2.0, [0u8; 32]);
}

#[test]
fn decrypt_with_wrong_key_fails_and_keeps_key() {
    let blob = encrypt_with_salt(&key(1), &[0u8; 16], b"secret");
    let mut wrong = key(2);
    assert_eq!(decrypt(&mut wrong, &blob), Err(CipherError::DecryptionFailed));
    assert_eq!(wrong.0, [2u8; 32]);
}

#[test]
fn blob_layout() {
    let salt: [u8; 16] = [0, 1, 2, 3, 4, 5, 6, 7, 8, 9, 10, 11, 12, 13, 14, 15];
    let pt = b"plaintext bytes";
    let blob = encrypt_with_salt(&key(5), &salt, pt);
    assert_eq!(blob.len(), 44 + pt.len() + 16);
    assert_eq!(&blob[..4], b"HEC\x01");
    assert_eq!(&blob[4..20], &salt);
    let hash = blake3::hash(pt);
    assert_eq!(&blob[20..44], &hash.as_bytes()[..24]);
}

#[test]
fn ciphertext_is_not_the_plaintext() {
    let pt = [0x41u8; 64];
    let blob = encrypt_with_salt(&key(5), &[0u8; 16], &pt);
    assert_ne!(&blob[44..108], &pt[..]);
}

#[test]
fn ciphertext_matches_xchacha20poly1305() {
    let pt = b"compare with the crate";
    let blob = encrypt_with_salt(&key(4), &[0u8; 16], pt);
    let cipher = chacha20poly1305::XChaCha20Poly1305::new((&[4u8; 32]).into());
    let nonce = chacha20poly1305::XNonce::from_slice(&blob[20..44]);
    let expected = cipher.encrypt(nonce, &pt[..]).unwrap();
    assert_eq!(&blob[44..], &expected[..]);
}

#[test]
fn encryption_is_deterministic() {
    let a = encrypt_with_salt(&key(8), &[6u8; 16], b"same input");
    let b = encrypt_with_salt(&key(8), &[6u8; 16], b"same input");
    assert_eq!(a, b);
}

#[test]
fn empty_plaintext_round_trips() {
    let blob = encrypt_with_salt(&key(3), &[9u8; 16], b"");
    assert_eq!(blob.len(), 60);
    let mut k = key(3);
    assert_eq!(decrypt(&mut k, &blob).unwrap(), Vec::<u8>::new());
}

#[test]
fn extract_salt_of_encrypted_blob() {
    let salt = [0xAAu8; 16];
    let blob = encrypt_with_salt(&key(1), &salt, b"x");
    assert_eq!(extract_salt(&blob), Ok(salt));
}

#[test]
fn extract_salt_truncated() {
    assert_eq!(extract_salt(&[0u8; 43]), Err(CipherError::TruncatedHeader));
    assert_eq!(extract_salt(&[]), Err(CipherError::TruncatedHeader));
}

#[test]
fn extract_salt_bad_magic() {
    let mut blob = vec![0u8; 44];
    blob[..4].copy_from_slice(b"STC\x01");
    assert_eq!(extract_salt(&blob), Err(CipherError::BadMagic));
}

#[test]
fn extract_salt_header_only() {
    let mut blob = vec![0u8; 44];
    blob[..4].copy_from_slice(b"HEC\x01");
    blob[4..20].copy_from_slice(&[7u8; 16]);
    assert_eq!(extract_salt(&blob), Ok([7u8; 16]));
}

#[test]
fn decrypt_truncated_and_bad_magic() {
    let mut k = key(1);
    assert_eq!(decrypt(&mut k, &[0x48, 0x45, 0x43, 0x01]), Err(CipherError::TruncatedHeader));
    let mut blob = encrypt_with_salt(&key(1), &[0u8; 16], b"abc");
    blob[0] = b'X';
    assert_eq!(decrypt(&mut k, &blob), Err(CipherError::BadMagic));
    assert_eq!(k.0, [1u8; 32]);
}

#[test]
fn decrypt_detects_tampering() {
    let mut blob = encrypt_with_salt(&key(1), &[0u8; 16], b"integrity");
    let last = blob.len() - 1;
    blob[last] ^= 1;
    let mut k = key(1);
    assert_eq!(decrypt(&mut k, &blob), Err(CipherError::DecryptionFailed));
}

#[test]
fn decrypt_header_without_tag_fails() {
    let mut blob = vec![0u8; 44];
    blob[..4].copy_from_slice(b"HEC\x01");
    let mut k = key(1);
    assert_eq!(decrypt(&mut k, &blob), Err(CipherError::DecryptionFailed));
}

#[test]
fn cipher_error_messages() {
    assert_eq!(CipherError::BadMagic.message(), "Not a valid STCS file (bad magic)");
    assert_eq!(CipherError::TruncatedHeader.message(), "File is truncated");
    assert_eq!(
        CipherError::DecryptionFailed.message(),
        "Decryption failed \u{2014} wrong machine or corrupted file"
    );
}

#[test]
fn decrypt_header_only_blob_keeps_key() {
    let mut blob = MAGIC.to_vec();
    blob.extend_from_slice(&[0u8; 40]);
    let mut k = key(7);
    assert_eq!(decrypt(&mut k, &blob), Err(CipherError::DecryptionFailed));
    assert_eq!(k.0, [7u8; 32]);
    blob.extend_from_slice(&[0u8; 15]);
    assert_eq!(decrypt(&mut k, &blob), Err(CipherError::DecryptionFailed));
    assert_eq!(k.0, [7u8; 32]);
}

#[test]
fn decrypted_length_is_blob_minus_header_and_tag() {
    let pt = vec![0x5au8; 100];
    let blob = encrypt_with_salt(&key(2), &[0u8; 16], &pt);
    let mut k = key(2);
    let out = decrypt(&mut k, &blob).unwrap();
    assert_eq!(out.len(), blob.len() - 60);
}
