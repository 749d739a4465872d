//! The encrypted container: header framing, encryption and decryption.
//!
//! Layout of a blob:
//!   4 bytes   magic `HEC\x01`
//!   16 bytes  Argon2 salt (public; needed to re-derive the key)
//!   24 bytes  XChaCha20 nonce = first 24 bytes of BLAKE3(plaintext)
//!   N bytes   XChaCha20-Poly1305 ciphertext followed by its 16-byte tag

use vstd::prelude::*;
use vstd::slice::slice_subrange;
use crate::fingerprint::DerivedKey;
use crate::outside::{blake3_digest, blake3_hash, wipe_key_bytes, xchacha_open, xchacha_opened, xchacha_seal, xchacha_sealed};

verus! {

/// The four bytes that open every blob.
pub const MAGIC: [u8; 4] = [0x48u8, 0x45u8, 0x43u8, 0x01u8];
/// Length of the Argon2 salt in the header.
pub const SALT_LEN: usize = 16;
/// Length of the XChaCha20 nonce in the header.
pub const NONCE_LEN: usize = 24;
/// Length of the whole header (44 bytes).
pub const HEADER_LEN: usize = 4 + SALT_LEN + NONCE_LEN;

/// Why a blob was refused.
#[derive(Debug, Clone, Copy, PartialEq, Eq, Structural)]
pub enum CipherError {
    BadMagic,
    TruncatedHeader,
    DecryptionFailed,
}

/// The four magic bytes `H`, `E`, `C`, 1.
pub open spec fn magic_seq() -> Seq<u8> {
    seq![0x48u8, 0x45u8, 0x43u8, 0x01u8]
}

/// The header check shared by salt extraction and decryption.
pub open spec fn spec_check_header(blob: Seq<u8>) -> Result<(), CipherError> {
    if blob.len() < HEADER_LEN {
        Err(CipherError::TruncatedHeader)
    } else if blob.subrange(0, 4) != magic_seq() {
        Err(CipherError::BadMagic)
    } else {
        Ok(())
    }
}

/// The salt carried in the header of `blob`.
pub open spec fn spec_extract_salt(blob: Seq<u8>) -> Result<Seq<u8>, CipherError> {
    match spec_check_header(blob) {
        Err(e) => Err(e),
        Ok(()) => Ok(blob.subrange(4, 4 + SALT_LEN as int)),
    }
}

/// A blob assembled from its three parts.
pub open spec fn spec_frame(salt: Seq<u8>, nonce: Seq<u8>, sealed: Seq<u8>) -> Seq<u8> {
    magic_seq() + salt + nonce + sealed
}

/// A `Result` carrying an array, seen through the array's contents.
pub open spec fn salt_result_view<const N: usize>(r: Result<[u8; N], CipherError>) -> Result<Seq<u8>, CipherError> {
    match r {
        Ok(a) => Ok(a@),
        Err(e) => Err(e),
    }
}

impl CipherError {
    /// The text shown to a user for this error.
    pub fn message(&self) -> (res: &'static str)
        ensures
            *self is BadMagic ==> res@ == "Not a valid STCS file (bad magic)"@,
            *self is TruncatedHeader ==> res@ == "File is truncated"@,
            *self is DecryptionFailed ==> res@ == "Decryption failed \u{2014} wrong machine or corrupted file"@,
    {
        match self {
            CipherError::BadMagic => "Not a valid STCS file (bad magic)",
            CipherError::TruncatedHeader => "File is truncated",
            CipherError::DecryptionFailed => "Decryption failed \u{2014} wrong machine or corrupted file",
        }
    }
}

/// Checks the length and the magic bytes of a blob.
fn check_header(blob: &[u8]) -> (res: Result<(), CipherError>)
    ensures
        res == spec_check_header(blob@),
{
    if blob.len() < HEADER_LEN {
        return Err(CipherError::TruncatedHeader);
    }
    let mut i: usize = 0;
    while i < 4
        invariant
            0 <= i <= 4,
            blob@.len() >= HEADER_LEN,
            forall|j: int| 0 <= j < i ==> blob@[j] == magic_seq()[j],
        decreases 4 - i,
    {
        if blob[i] != MAGIC[i] {
            assert(blob@.subrange(0, 4)[i as int] != magic_seq()[i as int]);
            return Err(CipherError::BadMagic);
        }
        i = i + 1;
    }
    assert(blob@.subrange(0, 4) =~= magic_seq());
    Ok(())
}

/// Pulls the Argon2 salt out of the header (needed before key derivation).
pub fn extract_salt(blob: &[u8]) -> (res: Result<[u8; SALT_LEN], CipherError>)
    ensures
        salt_result_view(res) == spec_extract_salt(blob@),
{
    check_header(blob)?;
    let mut s = [0u8; SALT_LEN];
    let mut i: usize = 0;
    while i < SALT_LEN
        invariant
            0 <= i <= SALT_LEN,
            blob@.len() >= HEADER_LEN,
            s@.len() == SALT_LEN,
            forall|j: int| 0 <= j < i ==> s@[j] == blob@[4 + j],
        decreases SALT_LEN - i,
    {
        s[i] = blob[4 + i];
        i = i + 1;
    }
    assert(s@ =~= blob@.subrange(4, 4 + SALT_LEN as int));
    Ok(s)
}

/// The nonce of a plaintext: the first 24 bytes of its BLAKE3 hash.
pub open spec fn spec_nonce(plaintext: Seq<u8>) -> Seq<u8> {
    blake3_digest(plaintext).subrange(0, NONCE_LEN as int)
}

/// The blob that encrypting `plaintext` under `key` with `salt` produces.
pub open spec fn spec_encrypt_with_salt(key: Seq<u8>, salt: Seq<u8>, plaintext: Seq<u8>) -> Seq<u8> {
    let nonce = spec_nonce(plaintext);
    spec_frame(salt, nonce, xchacha_sealed(key, nonce, plaintext))
}

/// What decrypting `blob` under `key` gives: the header errors first, then
/// the plaintext, or `DecryptionFailed` when the rest does not authenticate.
pub open spec fn spec_decrypt(key: Seq<u8>, blob: Seq<u8>) -> Result<Seq<u8>, CipherError> {
    match spec_check_header(blob) {
        Err(e) => Err(e),
        Ok(()) => match xchacha_opened(
            key,
            blob.subrange(4 + SALT_LEN as int, HEADER_LEN as int),
            blob.subrange(HEADER_LEN as int, blob.len() as int),
        ) {
            Some(p) => Ok(p),
            None => Err(CipherError::DecryptionFailed),
        },
    }
}

/// A result carrying bytes, seen through their contents.
pub open spec fn bytes_result_view(r: Result<Vec<u8>, CipherError>) -> Result<Seq<u8>, CipherError> {
    match r {
        Ok(v) => Ok(v@),
        Err(e) => Err(e),
    }
}

/// A key of all zero bytes.
pub open spec fn wiped_key() -> Seq<u8> {
    Seq::new(32, |i: int| 0u8)
}

/// Breaks a framed blob back into its parts.
proof fn lemma_frame_parts(salt: Seq<u8>, nonce: Seq<u8>, sealed: Seq<u8>)
    requires
        salt.len() == SALT_LEN,
        nonce.len() == NONCE_LEN,
    ensures
        spec_frame(salt, nonce, sealed).len() == HEADER_LEN + sealed.len(),
        spec_frame(salt, nonce, sealed).subrange(0, 4) == magic_seq(),
        spec_frame(salt, nonce, sealed).subrange(4, 4 + SALT_LEN as int) == salt,
        spec_frame(salt, nonce, sealed).subrange(4 + SALT_LEN as int, HEADER_LEN as int) == nonce,
        spec_frame(salt, nonce, sealed).subrange(HEADER_LEN as int, HEADER_LEN + sealed.len()) == sealed,
{
    let f = spec_frame(salt, nonce, sealed);
    assert(f.subrange(0, 4) =~= magic_seq());
    assert(f.subrange(4, 4 + SALT_LEN as int) =~= salt);
    assert(f.subrange(4 + SALT_LEN as int, HEADER_LEN as int) =~= nonce);
    assert(f.subrange(HEADER_LEN as int, HEADER_LEN + sealed.len()) =~= sealed);
}

/// Decryption and salt extraction judge a header alike: a header that salt
/// extraction refuses, decryption refuses for the same reason; decryption of
/// a blob whose header is accepted fails, if at all, only in authentication.
pub proof fn lemma_header_agreement(key: Seq<u8>, blob: Seq<u8>)
    ensures
        spec_extract_salt(blob) matches Err(e) ==> spec_decrypt(key, blob) == Err::<Seq<u8>, CipherError>(e),
        spec_extract_salt(blob) is Ok ==> spec_decrypt(key, blob) is Ok
            || spec_decrypt(key, blob) == Err::<Seq<u8>, CipherError>(CipherError::DecryptionFailed),
{
}

/// Encrypts `plaintext` under `key`. The nonce is the first 24 bytes of the
/// BLAKE3 hash of the plaintext; the salt is stored in the header so that
/// decryption can re-derive the key.
pub fn encrypt_with_salt(key: &DerivedKey, salt: &[u8; SALT_LEN], plaintext: &[u8]) -> (res: Vec<u8>)
    requires
        plaintext@.len() / 64 < 0xFFFF_FFFF,
    ensures
        res@ == spec_encrypt_with_salt(key.0@, salt@, plaintext@),
        res@.len() == HEADER_LEN + plaintext@.len() + 16,
        spec_nonce(plaintext@).len() == NONCE_LEN,
        res@.subrange(4 + SALT_LEN as int, HEADER_LEN as int) == spec_nonce(plaintext@),
        spec_decrypt(key.0@, res@) == Ok::<Seq<u8>, CipherError>(plaintext@),
        spec_extract_salt(res@) == Ok::<Seq<u8>, CipherError>(salt@),
{
    let hash = blake3_hash(plaintext);
    let mut nonce = [0u8; NONCE_LEN];
    let mut i: usize = 0;
    while i < NONCE_LEN
        invariant
            0 <= i <= NONCE_LEN,
            nonce@.len() == NONCE_LEN,
            hash@.len() == 32,
            forall|j: int| 0 <= j < i ==> nonce@[j] == hash@[j],
        decreases NONCE_LEN - i,
    {
        nonce[i] = hash[i];
        i = i + 1;
    }
    assert(nonce@ =~= spec_nonce(plaintext@));
    let sealed = xchacha_seal(&key.0, &nonce, plaintext);
    let mut out: Vec<u8> = Vec::new();
    out.push(MAGIC[0]);
    out.push(MAGIC[1]);
    out.push(MAGIC[2]);
    out.push(MAGIC[3]);
    append_slice(&mut out, salt.as_slice());
    append_slice(&mut out, nonce.as_slice());
    append_slice(&mut out, sealed.as_slice());
    assert(out@ =~= spec_frame(salt@, nonce@, sealed@));
    proof {
        lemma_frame_parts(salt@, nonce@, sealed@);
    }
    out
}

/// Appends the bytes of `s` to `v`.
fn append_slice(v: &mut Vec<u8>, s: &[u8])
    ensures
        final(v)@ == old(v)@ + s@,
{
    let ghost start = v@;
    let mut i: usize = 0;
    while i < s.len()
        invariant
            0 <= i <= s@.len(),
            v@ == start + s@.take(i as int),
        decreases s@.len() - i,
    {
        v.push(s[i]);
        assert(s@.take(i + 1) =~= s@.take(i as int).push(s@[i as int]));
        i = i + 1;
    }
    assert(s@.take(s@.len() as int) =~= s@);
}

/// Decrypts a blob made by `encrypt_with_salt`. On success the key is wiped
/// (overwritten with zeros); on failure it is left as it was.
pub fn decrypt(key: &mut DerivedKey, blob: &[u8]) -> (res: Result<Vec<u8>, CipherError>)
    ensures
        bytes_result_view(res) == spec_decrypt(old(key).0@, blob@),
        res matches Ok(p) ==> p@.len() == blob@.len() - HEADER_LEN - 16,
        spec_check_header(blob@) is Ok && blob@.len() < HEADER_LEN + 16 ==> res
            == Err::<Vec<u8>, CipherError>(CipherError::DecryptionFailed),
        res is Ok ==> final(key).0@ == wiped_key(),
        res is Err ==> final(key).0@ == old(key).0@,
{
    check_header(blob)?;
    let nonce = slice_subrange(blob, 4 + SALT_LEN, HEADER_LEN);
    let sealed = slice_subrange(blob, HEADER_LEN, blob.len());
    match xchacha_open(&key.0, nonce, sealed) {
        None => Err(CipherError::DecryptionFailed),
        Some(plaintext) => {
            wipe_key_bytes(&mut key.0);
            Ok(plaintext)
        },
    }
}

} // verus!
