//! AES-256-GCM and ChaCha20-Poly1305, as implemented by `ring`.
use crate::aead::Algorithm;
use crate::error::{Invalid, NotAuthentic};
use vstd::prelude::*;

verus! {

/// What AES-256-GCM seals `plaintext` to: the ciphertext followed by the tag.
pub uninterp spec fn aes_256_gcm_sealed(
    key: Seq<u8>,
    nonce: Seq<u8>,
    aad: Seq<u8>,
    plaintext: Seq<u8>,
) -> Seq<u8>;

/// What AES-256-GCM opens `ciphertext` (tag included) to, if it is authentic.
pub uninterp spec fn aes_256_gcm_opened(
    key: Seq<u8>,
    nonce: Seq<u8>,
    aad: Seq<u8>,
    ciphertext: Seq<u8>,
) -> Option<Seq<u8>>;

/// What ChaCha20-Poly1305 seals `plaintext` to: the ciphertext followed by the tag.
pub uninterp spec fn chacha20_poly1305_sealed(
    key: Seq<u8>,
    nonce: Seq<u8>,
    aad: Seq<u8>,
    plaintext: Seq<u8>,
) -> Seq<u8>;

/// What ChaCha20-Poly1305 opens `ciphertext` (tag included) to, if it is authentic.
pub uninterp spec fn chacha20_poly1305_opened(
    key: Seq<u8>,
    nonce: Seq<u8>,
    aad: Seq<u8>,
    ciphertext: Seq<u8>,
) -> Option<Seq<u8>>;

/// Relies on ring's `LessSafeKey::seal_in_place_append_tag` with
/// `AES_256_GCM`: it encrypts `in_out` in place and appends the 16-byte tag;
/// the result depends on key, nonce, associated data and plaintext alone, and
/// opening it under the same key, nonce and associated data gives the
/// plaintext back. It fails only where `in_out` is longer than about 2^36
/// bytes or `aad` has 2^61 bytes or more.
#[verifier::external_body]
fn aes_256_gcm_seal(key: &[u8; 32], nonce: &[u8; 12], aad: &[u8], in_out: &mut Vec<u8>) -> (r:
    Result<(), Invalid>)
    ensures
        old(in_out)@.len() <= crate::MAX_BUF_SIZE && aad@.len() < 0x2000_0000_0000_0000 ==> r is Ok,
        r is Ok ==> final(in_out)@ == aes_256_gcm_sealed(key@, nonce@, aad@, old(in_out)@),
        r is Ok ==> final(in_out)@.len() == old(in_out)@.len() + 16,
        r is Ok ==> aes_256_gcm_opened(key@, nonce@, aad@, final(in_out)@) == Some(old(in_out)@),
{
    let unbound = match ::ring::aead::UnboundKey::new(&::ring::aead::AES_256_GCM, key) {
        Ok(k) => k,
        Err(_) => return Err(Invalid::Key),
    };
    let sealing = ::ring::aead::LessSafeKey::new(unbound);
    let nonce = ::ring::aead::Nonce::assume_unique_for_key(*nonce);
    match sealing.seal_in_place_append_tag(nonce, ::ring::aead::Aad::from(aad), in_out) {
        Ok(()) => Ok(()),
        Err(_) => Err(Invalid::BufSize),
    }
}

/// Relies on ring's `LessSafeKey::open_in_place` with `AES_256_GCM`: it
/// checks the tag at the end of `in_out` and, where the tag is right, leaves
/// the plaintext; the outcome depends on key, nonce, associated data and
/// ciphertext alone. An input shorter than the tag fails; a plaintext is
/// the input less its 16-byte tag.
#[verifier::external_body]
fn aes_256_gcm_open(key: &[u8; 32], nonce: &[u8; 12], aad: &[u8], in_out: &mut Vec<u8>) -> (r:
    Result<(), NotAuthentic>)
    ensures
        r is Ok <==> aes_256_gcm_opened(key@, nonce@, aad@, old(in_out)@) is Some,
        old(in_out)@.len() < 16 ==> r is Err,
        r is Ok ==> final(in_out)@.len() + 16 == old(in_out)@.len(),
        r is Ok ==> aes_256_gcm_opened(key@, nonce@, aad@, old(in_out)@) == Some(final(in_out)@),
{
    let unbound = match ::ring::aead::UnboundKey::new(&::ring::aead::AES_256_GCM, key) {
        Ok(k) => k,
        Err(_) => return Err(NotAuthentic),
    };
    let opening = ::ring::aead::LessSafeKey::new(unbound);
    let nonce = ::ring::aead::Nonce::assume_unique_for_key(*nonce);
    match opening.open_in_place(nonce, ::ring::aead::Aad::from(aad), in_out.as_mut_slice()) {
        Ok(plaintext) => {
            let len = plaintext.len();
            in_out.truncate(len);
            Ok(())
        },
        Err(_) => Err(NotAuthentic),
    }
}

/// Relies on ring's `LessSafeKey::seal_in_place_append_tag` with
/// `CHACHA20_POLY1305`: it encrypts `in_out` in place and appends the 16-byte
/// tag; the result depends on key, nonce, associated data and plaintext
/// alone, and opening it under the same key, nonce and associated data gives
/// the plaintext back. It fails only where `in_out` is longer than about
/// 2^38 bytes.
#[verifier::external_body]
fn chacha20_poly1305_seal(key: &[u8; 32], nonce: &[u8; 12], aad: &[u8], in_out: &mut Vec<u8>) -> (r:
    Result<(), Invalid>)
    ensures
        old(in_out)@.len() <= crate::MAX_BUF_SIZE && aad@.len() < 0x2000_0000_0000_0000 ==> r is Ok,
        r is Ok ==> final(in_out)@ == chacha20_poly1305_sealed(key@, nonce@, aad@, old(in_out)@),
        r is Ok ==> final(in_out)@.len() == old(in_out)@.len() + 16,
        r is Ok ==> chacha20_poly1305_opened(key@, nonce@, aad@, final(in_out)@) == Some(
            old(in_out)@,
        ),
{
    let unbound = match ::ring::aead::UnboundKey::new(&::ring::aead::CHACHA20_POLY1305, key) {
        Ok(k) => k,
        Err(_) => return Err(Invalid::Key),
    };
    let sealing = ::ring::aead::LessSafeKey::new(unbound);
    let nonce = ::ring::aead::Nonce::assume_unique_for_key(*nonce);
    match sealing.seal_in_place_append_tag(nonce, ::ring::aead::Aad::from(aad), in_out) {
        Ok(()) => Ok(()),
        Err(_) => Err(Invalid::BufSize),
    }
}

/// Relies on ring's `LessSafeKey::open_in_place` with `CHACHA20_POLY1305`:
/// it checks the tag at the end of `in_out` and, where the tag is right,
/// leaves the plaintext; the outcome depends on key, nonce, associated data
/// and ciphertext alone. An input shorter than the tag fails; a plaintext
/// is the input less its 16-byte tag.
#[verifier::external_body]
fn chacha20_poly1305_open(key: &[u8; 32], nonce: &[u8; 12], aad: &[u8], in_out: &mut Vec<u8>) -> (r:
    Result<(), NotAuthentic>)
    ensures
        r is Ok <==> chacha20_poly1305_opened(key@, nonce@, aad@, old(in_out)@) is Some,
        old(in_out)@.len() < 16 ==> r is Err,
        r is Ok ==> final(in_out)@.len() + 16 == old(in_out)@.len(),
        r is Ok ==> chacha20_poly1305_opened(key@, nonce@, aad@, old(in_out)@) == Some(
            final(in_out)@,
        ),
{
    let unbound = match ::ring::aead::UnboundKey::new(&::ring::aead::CHACHA20_POLY1305, key) {
        Ok(k) => k,
        Err(_) => return Err(NotAuthentic),
    };
    let opening = ::ring::aead::LessSafeKey::new(unbound);
    let nonce = ::ring::aead::Nonce::assume_unique_for_key(*nonce);
    match opening.open_in_place(nonce, ::ring::aead::Aad::from(aad), in_out.as_mut_slice()) {
        Ok(plaintext) => {
            let len = plaintext.len();
            in_out.truncate(len);
            Ok(())
        },
        Err(_) => Err(NotAuthentic),
    }
}

/// AES-256-GCM.
#[allow(non_camel_case_types)]
pub struct AES_256_GCM {
    key: [u8; 32],
}

impl Algorithm for AES_256_GCM {
    closed spec fn key(&self) -> Seq<u8> {
        self.key@
    }

    open spec fn sealed(key: Seq<u8>, nonce: Seq<u8>, aad: Seq<u8>, plaintext: Seq<u8>) -> Seq<
        u8,
    > {
        aes_256_gcm_sealed(key, nonce, aad, plaintext)
    }

    open spec fn opened(key: Seq<u8>, nonce: Seq<u8>, aad: Seq<u8>, ciphertext: Seq<u8>) -> Option<
        Seq<u8>,
    > {
        aes_256_gcm_opened(key, nonce, aad, ciphertext)
    }

    fn new(key: &[u8; 32]) -> (r: Self) {
        AES_256_GCM { key: *key }
    }

    fn seal_in_place(&self, nonce: &[u8; 12], aad: &[u8], in_out: &mut Vec<u8>) -> (r: Result<
        (),
        Invalid,
    >) {
        aes_256_gcm_seal(&self.key, nonce, aad, in_out)
    }

    fn open_in_place(&self, nonce: &[u8; 12], aad: &[u8], in_out: &mut Vec<u8>) -> (r: Result<
        (),
        NotAuthentic,
    >) {
        aes_256_gcm_open(&self.key, nonce, aad, in_out)
    }
}

/// ChaCha20-Poly1305.
#[allow(non_camel_case_types)]
pub struct CHACHA20_POLY1305 {
    key: [u8; 32],
}

impl Algorithm for CHACHA20_POLY1305 {
    closed spec fn key(&self) -> Seq<u8> {
        self.key@
    }

    open spec fn sealed(key: Seq<u8>, nonce: Seq<u8>, aad: Seq<u8>, plaintext: Seq<u8>) -> Seq<
        u8,
    > {
        chacha20_poly1305_sealed(key, nonce, aad, plaintext)
    }

    open spec fn opened(key: Seq<u8>, nonce: Seq<u8>, aad: Seq<u8>, ciphertext: Seq<u8>) -> Option<
        Seq<u8>,
    > {
        chacha20_poly1305_opened(key, nonce, aad, ciphertext)
    }

    fn new(key: &[u8; 32]) -> (r: Self) {
        CHACHA20_POLY1305 { key: *key }
    }

    fn seal_in_place(&self, nonce: &[u8; 12], aad: &[u8], in_out: &mut Vec<u8>) -> (r: Result<
        (),
        Invalid,
    >) {
        chacha20_poly1305_seal(&self.key, nonce, aad, in_out)
    }

    fn open_in_place(&self, nonce: &[u8; 12], aad: &[u8], in_out: &mut Vec<u8>) -> (r: Result<
        (),
        NotAuthentic,
    >) {
        chacha20_poly1305_open(&self.key, nonce, aad, in_out)
    }
}

} // verus!
