//! Encryption at rest of the database snapshot.
//!
//! A snapshot on disk is `nonce || ciphertext`, where the ciphertext is the
//! XChaCha20-Poly1305 sealing of the plaintext under a 32-byte key and a
//! random 24-byte nonce.

use chacha20poly1305::aead::{Aead, KeyInit};
use chacha20poly1305::{Key, XChaCha20Poly1305, XNonce};
use rand::RngCore;
use vstd::prelude::*;

verus! {

/// Length in bytes of the nonce that leads every encrypted blob.
pub const NONCE_LEN: usize = 24;

/// Length in bytes of a database key.
pub const KEY_LEN: usize = 32;

#[verifier::external_type_specification]
#[verifier::external_body]
pub struct ExAeadError(chacha20poly1305::Error);

/// The XChaCha20-Poly1305 sealing (ciphertext followed by the 16-byte tag) of
/// `plaintext` under `key` and `nonce`, with no associated data.
pub uninterp spec fn xchacha20poly1305_seal(key: Seq<u8>, nonce: Seq<u8>, plaintext: Seq<u8>) -> Seq<
    u8,
>;

/// What XChaCha20-Poly1305 opening of `ciphertext` under `key` and `nonce`
/// yields: the plaintext, or `None` when the tag does not authenticate.
pub uninterp spec fn xchacha20poly1305_open(
    key: Seq<u8>,
    nonce: Seq<u8>,
    ciphertext: Seq<u8>,
) -> Option<Seq<u8>>;

/// A message this short can be sealed: it spans fewer than `u32::MAX`
/// ChaCha20 blocks of 64 bytes.
pub open spec fn sealable(len: int) -> bool {
    len / 64 < 0xFFFF_FFFF
}

/// `Aead::encrypt` of `XChaCha20Poly1305`, keyed by `KeyInit::new`.
/// Claims: it succeeds exactly when the plaintext is short enough
/// (`encrypt_in_place_detached` refuses `u32::MAX` blocks or more), and then
/// returns the sealing named by `xchacha20poly1305_seal`, which is 16 bytes
/// (the tag) longer than the plaintext.
#[verifier::external_body]
fn seal(key: &[u8; 32], nonce: &[u8; 24], plaintext: &[u8]) -> (r: Result<
    Vec<u8>,
    chacha20poly1305::Error,
>)
    ensures
        r is Ok <==> sealable(plaintext@.len() as int),
        r matches Ok(c) ==> c@ == xchacha20poly1305_seal(key@, nonce@, plaintext@),
        r matches Ok(c) ==> c@.len() == plaintext@.len() + 16,
{
    XChaCha20Poly1305::new(Key::from_slice(key)).encrypt(XNonce::from_slice(nonce), plaintext)
}

/// `Aead::decrypt` of `XChaCha20Poly1305`, keyed by `KeyInit::new`; the nonce
/// must be 24 bytes (`XNonce::from_slice` panics otherwise).
/// Claims: it returns what `xchacha20poly1305_open` names, and opening the
/// sealing of a sealable plaintext under the same key and nonce gives that
/// plaintext back (the AEAD's correctness).
#[verifier::external_body]
fn open(key: &[u8; 32], nonce: &[u8], ciphertext: &[u8]) -> (r: Result<
    Vec<u8>,
    chacha20poly1305::Error,
>)
    requires
        nonce@.len() == 24,
    ensures
        r is Ok <==> xchacha20poly1305_open(key@, nonce@, ciphertext@) is Some,
        r matches Ok(p) ==> xchacha20poly1305_open(key@, nonce@, ciphertext@) == Some(p@),
        forall|p: Seq<u8>|
            sealable(p.len() as int) && #[trigger] xchacha20poly1305_seal(key@, nonce@, p)
                == ciphertext@ ==> r is Ok && r->Ok_0@ == p,
{
    XChaCha20Poly1305::new(Key::from_slice(key)).decrypt(XNonce::from_slice(nonce), ciphertext)
}

#[verifier::external_type_specification]
#[verifier::external_body]
pub struct ExRandError(rand::Error);

/// `RngCore::try_fill_bytes` of `rand::rngs::OsRng`: fills the buffer from the
/// operating system's random source, or reports that the source failed.
/// Nothing is claimed of the bytes, nor of when the source fails.
#[verifier::external_body]
pub(crate) fn fill_random<const N: usize>(buf: &mut [u8; N]) -> Result<(), rand::Error> {
    rand::rngs::OsRng.try_fill_bytes(buf)
}

/// The message given when the operating system's random source fails.
pub open spec fn random_source_failed() -> Seq<char> {
    "the operating system's random source failed"@
}

/// Turns the outcome of sealing into the stored blob: the nonce followed by
/// the sealed bytes, or the message "encryption failed".
pub fn frame_sealed(nonce: &[u8; 24], sealed: Result<Vec<u8>, chacha20poly1305::Error>) -> (r:
    Result<Vec<u8>, String>)
    ensures
        sealed is Ok <==> r is Ok,
        r matches Ok(out) ==> sealed matches Ok(c) && out@ == nonce@ + c@,
        r matches Err(m) ==> m@ == "encryption failed"@,
{
    match sealed {
        Ok(c) => {
            let mut out: Vec<u8> = Vec::new();
            out.extend_from_slice(nonce);
            out.extend_from_slice(c.as_slice());
            assert(out@ =~= nonce@ + c@);
            Ok(out)
        },
        Err(_) => Err(String::from_str("encryption failed")),
    }
}

/// Encrypts under the given nonce; the blob is `nonce || sealing`.
pub fn encrypt_with_nonce(key: &[u8; 32], nonce: &[u8; 24], plaintext: &[u8]) -> (r: Result<
    Vec<u8>,
    String,
>)
    ensures
        r is Ok <==> sealable(plaintext@.len() as int),
        r matches Ok(out) ==> out@ == nonce@ + xchacha20poly1305_seal(key@, nonce@, plaintext@),
        r matches Ok(out) ==> out@.len() == NONCE_LEN + plaintext@.len() + 16,
        r matches Err(m) ==> m@ == "encryption failed"@,
{
    frame_sealed(nonce, seal(key, nonce, plaintext))
}

/// Encrypts a plaintext blob under a fresh random nonce; the output is
/// `nonce || ciphertext`. Fails with "encryption failed" when the plaintext
/// is too long, or when the random source fails, with a message saying so.
pub fn encrypt(key: &[u8; 32], plaintext: &[u8]) -> (r: Result<Vec<u8>, String>)
    ensures
        r is Ok ==> sealable(plaintext@.len() as int),
        !sealable(plaintext@.len() as int) ==> r is Err,
        r matches Ok(out) ==> out@.len() == NONCE_LEN + plaintext@.len() + 16 && out@.subrange(
            NONCE_LEN as int,
            out@.len() as int,
        ) == xchacha20poly1305_seal(key@, out@.subrange(0, NONCE_LEN as int), plaintext@),
        r matches Err(m) ==> (m@ == "encryption failed"@ && !sealable(plaintext@.len() as int))
            || m@ == random_source_failed(),
{
    let mut nonce = [0u8; 24];
    if fill_random(&mut nonce).is_err() {
        return Err(String::from_str("the operating system's random source failed"));
    }
    let r = encrypt_with_nonce(key, &nonce, plaintext);
    proof {
        if r is Ok {
            let out = r->Ok_0;
            assert(out@.subrange(0, NONCE_LEN as int) =~= nonce@);
            assert(out@.subrange(NONCE_LEN as int, out@.len() as int) =~= xchacha20poly1305_seal(
                key@,
                nonce@,
                plaintext@,
            ));
        }
    }
    r
}

/// Turns the outcome of opening into the plaintext, or the message
/// "could not decrypt database (wrong key or corrupt file)".
pub fn finish_open(opened: Result<Vec<u8>, chacha20poly1305::Error>) -> (r: Result<
    Vec<u8>,
    String,
>)
    ensures
        opened is Ok <==> r is Ok,
        r matches Ok(p) ==> opened matches Ok(q) && p@ == q@,
        r matches Err(m) ==> m@ == "could not decrypt database (wrong key or corrupt file)"@,
{
    match opened {
        Ok(p) => Ok(p),
        Err(_) => Err(String::from_str("could not decrypt database (wrong key or corrupt file)")),
    }
}

/// Decrypts a `nonce || ciphertext` blob produced by [`encrypt`].
///
/// A blob shorter than the nonce is refused as corrupt; otherwise the result
/// is what opening gives. Decrypting what [`encrypt`] or
/// [`encrypt_with_nonce`] produced under the same key gives the plaintext back.
pub fn decrypt(key: &[u8; 32], data: &[u8]) -> (r: Result<Vec<u8>, String>)
    ensures
        data@.len() < NONCE_LEN ==> (r matches Err(m) && m@
            == "encrypted database is too short / corrupt"@),
        data@.len() >= NONCE_LEN ==> ({
            let opened = xchacha20poly1305_open(
                key@,
                data@.subrange(0, NONCE_LEN as int),
                data@.subrange(NONCE_LEN as int, data@.len() as int),
            );
            &&& r is Ok <==> opened is Some
            &&& r matches Ok(p) ==> opened == Some(p@)
            &&& r matches Err(m) ==> m@ == "could not decrypt database (wrong key or corrupt file)"@
        }),
        forall|p: Seq<u8>|
            data@.len() >= NONCE_LEN && sealable(p.len() as int) && #[trigger] xchacha20poly1305_seal(
                key@,
                data@.subrange(0, NONCE_LEN as int),
                p,
            ) == data@.subrange(NONCE_LEN as int, data@.len() as int) ==> (r matches Ok(q) && q@
                == p),
{
    if data.len() < NONCE_LEN {
        return Err(String::from_str("encrypted database is too short / corrupt"));
    }
    let (nonce, ct) = data.split_at(NONCE_LEN);
    finish_open(open(key, nonce, ct))
}

} // verus!
