//! Trusted items: each wraps one call into an outside crate or into std, and
//! states what that call's source or documentation shows of its result.
//! The names of the results are public, so that callers can speak of the
//! contracts that use them; the wrappers themselves stay inside the crate.

use chacha20poly1305::aead::{Aead, KeyInit};
use sha3::Digest;
use vstd::prelude::*;
use zeroize::Zeroize;

verus! {

/// `String::push` from std: appends one character at the end.
#[verifier::external_body]
pub(crate) fn push_char(s: &mut String, c: char)
    ensures
        final(s)@ == old(s)@.push(c),
{
    s.push(c);
}

/// Name for the text that `String::from_utf8_lossy` makes of a byte sequence.
pub uninterp spec fn utf8_lossy(bytes: Seq<u8>) -> Seq<char>;

/// `String::from_utf8_lossy` from std: decodes UTF-8, putting U+FFFD in place
/// of each invalid sequence. Stated: the result is the named decoding of the
/// bytes, and on valid UTF-8 it is exactly the decoded text.
#[verifier::external_body]
pub(crate) fn string_from_utf8_lossy(bytes: &[u8]) -> (res: String)
    ensures
        res@ == utf8_lossy(bytes@),
        vstd::utf8::valid_utf8(bytes@) ==> res@ == vstd::utf8::decode_utf8(bytes@),
{
    String::from_utf8_lossy(bytes).into_owned()
}

/// Name for the SHA3-512 digest of a byte sequence.
pub uninterp spec fn sha3_512_digest(data: Seq<u8>) -> Seq<u8>;

/// `sha3::Sha3_512::digest` (the `Digest` trait): the 64-byte SHA3-512 hash of
/// `data`. Stated: the result is the named digest of the bytes.
#[verifier::external_body]
pub(crate) fn sha3_512(data: &[u8]) -> (res: [u8; 64])
    ensures
        res@ == sha3_512_digest(data@),
{
    sha3::Sha3_512::digest(data).into()
}

/// Name for the 32-byte Argon2id (version 0x13) tag of `password` under
/// `salt`, with memory cost `m_cost` KiB, `t_cost` passes and `p_cost` lanes.
pub uninterp spec fn argon2id_tag(m_cost: u32, t_cost: u32, p_cost: u32, password: Seq<u8>, salt: Seq<u8>) -> Seq<u8>;

/// `argon2::Params::new`, `argon2::Argon2::new` (Argon2id, version 0x13) and
/// `Argon2::hash_password_into` with a 32-byte output. The `requires` are
/// the conditions under which the crate's source returns no error (cost
/// bounds checked by `Params::new`, password length checked by
/// `hash_password_into`; the 16-byte salt is within its bounds). Stated: the
/// result is the named tag of these arguments.
#[verifier::external_body]
pub(crate) fn argon2id_hash(m_cost: u32, t_cost: u32, p_cost: u32, password: &[u8], salt: &[u8; 16]) -> (res: [u8; 32])
    requires
        8 <= m_cost,
        8 * p_cost <= m_cost,
        1 <= t_cost,
        1 <= p_cost <= 0xFF_FFFF,
        password@.len() <= 0xFFFF_FFFF,
    ensures
        res@ == argon2id_tag(m_cost, t_cost, p_cost, password@, salt@),
{
    let params = argon2::Params::new(m_cost, t_cost, p_cost, Some(32)).expect("argon2 parameters");
    let hasher = argon2::Argon2::new(argon2::Algorithm::Argon2id, argon2::Version::V0x13, params);
    let mut out = [0u8; 32];
    hasher.hash_password_into(password, salt, &mut out).expect("argon2 inputs");
    out
}

/// `Zeroize::zeroize` on a 32-byte array: overwrites every byte with zero.
#[verifier::external_body]
pub(crate) fn wipe_key_bytes(k: &mut [u8; 32])
    ensures
        final(k)@ == Seq::new(32, |i: int| 0u8),
    opens_invariants none
    no_unwind
{
    k.zeroize();
}

/// `Zeroize::zeroize` on a `Vec<u8>`: overwrites the bytes with zero, then
/// clears the vector.
#[verifier::external_body]
pub(crate) fn wipe_byte_vec(v: &mut Vec<u8>)
    ensures
        final(v)@.len() == 0,
{
    v.zeroize();
}

/// Name for the 32-byte BLAKE3 hash of a byte sequence.
pub uninterp spec fn blake3_digest(data: Seq<u8>) -> Seq<u8>;

/// `blake3::hash`: the 32-byte BLAKE3 hash of `data`. Stated: the result is
/// the named hash of the bytes.
#[verifier::external_body]
pub(crate) fn blake3_hash(data: &[u8]) -> (res: [u8; 32])
    ensures
        res@ == blake3_digest(data@),
{
    *blake3::hash(data).as_bytes()
}

/// Name for what XChaCha20-Poly1305 encryption (no associated data) makes of
/// `plaintext` under `key` and `nonce`: the ciphertext followed by the tag.
pub uninterp spec fn xchacha_sealed(key: Seq<u8>, nonce: Seq<u8>, plaintext: Seq<u8>) -> Seq<u8>;

/// Name for what XChaCha20-Poly1305 decryption (no associated data) makes of
/// `sealed` under `key` and `nonce`: the plaintext, or `None` when the
/// input does not authenticate.
pub uninterp spec fn xchacha_opened(key: Seq<u8>, nonce: Seq<u8>, sealed: Seq<u8>) -> Option<Seq<u8>>;

/// `XChaCha20Poly1305::new` (`KeyInit`) and `Aead::encrypt` from the
/// `chacha20poly1305` crate. The `requires` is the crate's own limit (it
/// refuses a message of 2^32 - 1 blocks of 64 bytes or more). Stated: the
/// result is the named sealing of the arguments; it is the plaintext's
/// length plus the 16-byte tag (the `aead` crate appends the tag to the
/// encrypted buffer); and decryption with the same key and nonce gives the
/// plaintext back (AEAD correctness).
#[verifier::external_body]
pub(crate) fn xchacha_seal(key: &[u8; 32], nonce: &[u8; 24], plaintext: &[u8]) -> (res: Vec<u8>)
    requires
        plaintext@.len() / 64 < 0xFFFF_FFFF,
    ensures
        res@ == xchacha_sealed(key@, nonce@, plaintext@),
        res@.len() == plaintext@.len() + 16,
        xchacha_opened(key@, nonce@, res@) == Some(plaintext@),
{
    let cipher = chacha20poly1305::XChaCha20Poly1305::new(key.into());
    cipher.encrypt(chacha20poly1305::XNonce::from_slice(nonce), plaintext).expect("message within limit")
}

/// The contents of an optional byte vector.
pub open spec fn opt_bytes_view(o: Option<Vec<u8>>) -> Option<Seq<u8>> {
    match o {
        Some(v) => Some(v@),
        None => None,
    }
}

/// `XChaCha20Poly1305::new` (`KeyInit`) and `Aead::decrypt` from the
/// `chacha20poly1305` crate, with the error mapped to `None`. The
/// `requires` is the nonce length that `XNonce::from_slice` asserts. Stated:
/// the result is the named opening of the arguments; an input shorter than
/// the 16-byte tag is refused; and a successful opening is the input without
/// its 16-byte tag, so 16 bytes shorter (the `aead` crate splits the tag off
/// the end and truncates the buffer to the message).
#[verifier::external_body]
pub(crate) fn xchacha_open(key: &[u8; 32], nonce: &[u8], sealed: &[u8]) -> (res: Option<Vec<u8>>)
    requires
        nonce@.len() == 24,
    ensures
        opt_bytes_view(res) == xchacha_opened(key@, nonce@, sealed@),
        sealed@.len() < 16 ==> res is None,
        res matches Some(p) ==> p@.len() == sealed@.len() - 16,
{
    let cipher = chacha20poly1305::XChaCha20Poly1305::new(key.into());
    cipher.decrypt(chacha20poly1305::XNonce::from_slice(nonce), sealed).ok()
}

/// Name for the Unicode lowercase mapping of a text, as `str::to_lowercase`
/// computes it.
pub uninterp spec fn unicode_lowercase(s: Seq<char>) -> Seq<char>;

/// The ASCII lowercase of one character (other characters unchanged).
pub open spec fn ascii_lower(c: char) -> char {
    if 'A' <= c <= 'Z' {
        ((c as u32) + 32) as char
    } else {
        c
    }
}

/// `str::to_lowercase` from std. Stated: the result is the named lowercase
/// mapping of `s`; on ASCII text it maps `A`..`Z` to `a`..`z` and keeps every
/// other character.
#[verifier::external_body]
pub(crate) fn str_to_lowercase(s: &str) -> (res: String)
    ensures
        res@ == unicode_lowercase(s@),
        vstd::utf8::is_ascii_chars(s@) ==> res@ == s@.map_values(|c: char| ascii_lower(c)),
{
    s.to_lowercase()
}

} // verus!
