//! Key derivation and authenticated encryption of the vault's blob.

use vstd::prelude::*;
use vstd::utf8::encode_utf8;

verus! {

/// Rounds of PBKDF2-HMAC-SHA256 applied to the password.
pub const ITERATIONS: u32 = 100;

/// Length of the random nonce written in front of every blob.
pub const NONCE_LEN: usize = 12;

/// Length of the authentication tag that follows the ciphertext.
pub const TAG_LEN: usize = 16;

/// Longest plaintext that ChaCha20-Poly1305 seals in one call.
pub const MAX_PLAIN_LEN: u64 = 274_877_906_880;

/// Longest password accepted by key derivation.
pub const MAX_SECRET_LEN: u64 = 0x1000_0000_0000_0000;

/// The 32-byte key that PBKDF2-HMAC-SHA256 derives from a secret and a salt.
pub uninterp spec fn pbkdf2_key(iterations: u32, salt: Seq<u8>, secret: Seq<u8>) -> Seq<u8>;

/// The ChaCha20-Poly1305 sealing (ciphertext followed by its tag) of a
/// plaintext under a key and a nonce, with empty associated data.
pub uninterp spec fn chacha_sealed(key: Seq<u8>, nonce: Seq<u8>, plain: Seq<u8>) -> Seq<u8>;

/// Relies on ring::pbkdf2::derive with PBKDF2_HMAC_SHA256: fills the 32-byte
/// output from the iteration count, the salt and the secret alone.
#[verifier::external_body]
fn derive_key(iterations: u32, salt: &[u8; 16], secret: &[u8]) -> (r: [u8; 32])
    requires
        iterations > 0,
        secret@.len() <= MAX_SECRET_LEN,
    ensures
        r@ == pbkdf2_key(iterations, salt@, secret@),
{
    let mut out = [0u8; 32];
    let rounds = core::num::NonZeroU32::new(iterations).unwrap();
    ring::pbkdf2::derive(ring::pbkdf2::PBKDF2_HMAC_SHA256, rounds, salt, secret, &mut out);
    out
}

/// Relies on ring::rand::SystemRandom's fill: overwrites the buffer with
/// bytes from the system's secure random source; false when that fails.
#[verifier::external_body]
fn fill_random<const N: usize>(buf: &mut [u8; N]) -> (ok: bool) {
    ring::rand::SecureRandom::fill(&ring::rand::SystemRandom::new(), buf).is_ok()
}

/// Relies on ring::aead::LessSafeKey::seal_in_place_append_tag with
/// CHACHA20_POLY1305 and empty associated data: it fails only on a plaintext
/// longer than the algorithm's limit, and otherwise appends the tag.
#[verifier::external_body]
fn seal(key: &[u8; 32], nonce: &[u8; 12], data: Vec<u8>) -> (r: Option<Vec<u8>>)
    ensures
        r is Some <==> data@.len() <= MAX_PLAIN_LEN,
        r matches Some(c) ==> c@ == chacha_sealed(key@, nonce@, data@),
        r matches Some(c) ==> c@.len() == data@.len() + TAG_LEN,
{
    let unbound = ring::aead::UnboundKey::new(&ring::aead::CHACHA20_POLY1305, key).ok()?;
    let sealing = ring::aead::LessSafeKey::new(unbound);
    let mut data = data;
    let nonce = ring::aead::Nonce::assume_unique_for_key(*nonce);
    sealing.seal_in_place_append_tag(nonce, ring::aead::Aad::empty(), &mut data).ok()?;
    Some(data)
}

/// Relies on ring::aead::LessSafeKey::open_in_place with CHACHA20_POLY1305 and
/// empty associated data: it verifies the tag and returns the plaintext exactly
/// when the input is the sealing of that plaintext under this key and nonce.
#[verifier::external_body]
fn open(key: &[u8; 32], nonce: &[u8], data: Vec<u8>) -> (r: Option<Vec<u8>>)
    requires
        nonce@.len() == NONCE_LEN,
    ensures
        r matches Some(q) ==> q@.len() <= MAX_PLAIN_LEN && chacha_sealed(key@, nonce@, q@)
            == data@,
        r matches Some(q) ==> forall|p: Seq<u8>|
            p.len() <= MAX_PLAIN_LEN && #[trigger] chacha_sealed(key@, nonce@, p) == data@ ==> p
                == q@,
        r is None ==> forall|p: Seq<u8>|
            p.len() <= MAX_PLAIN_LEN ==> #[trigger] chacha_sealed(key@, nonce@, p) != data@,
{
    let unbound = ring::aead::UnboundKey::new(&ring::aead::CHACHA20_POLY1305, key).ok()?;
    let opening = ring::aead::LessSafeKey::new(unbound);
    let nonce = ring::aead::Nonce::try_assume_unique_for_key(nonce).ok()?;
    let mut data = data;
    let len = opening.open_in_place(nonce, ring::aead::Aad::empty(), &mut data).ok()?.len();
    data.truncate(len);
    Some(data)
}

/// A blob holds a nonce followed by the sealing of `plain` under `key` and that nonce.
pub open spec fn seals(key: Seq<u8>, blob: Seq<u8>, plain: Seq<u8>) -> bool {
    &&& blob.len() >= NONCE_LEN
    &&& plain.len() <= MAX_PLAIN_LEN
    &&& blob.subrange(NONCE_LEN as int, blob.len() as int) == chacha_sealed(
        key,
        blob.subrange(0, NONCE_LEN as int),
        plain,
    )
}

/// A blob opens to `plain` under `key`, and to nothing else.
pub open spec fn opens_to(key: Seq<u8>, blob: Seq<u8>, plain: Seq<u8>) -> bool {
    &&& seals(key, blob, plain)
    &&& forall|q: Seq<u8>| #[trigger] seals(key, blob, q) ==> q == plain
}

/// Errors of encryption and decryption.
#[derive(Debug, Clone, Copy, PartialEq, Eq, Structural)]
pub enum CryptError {
    /// The blob is not the sealing of any plaintext under this key: wrong
    /// password, or corrupted data.
    Decrypt,
    /// The plaintext is too long, or no random nonce could be drawn.
    Encrypt,
}

/// A fresh random salt; `None` when the system's random source fails.
pub fn gen_salt() -> (r: Option<[u8; 16]>) {
    let mut salt = [0u8; 16];
    if fill_random(&mut salt) {
        Some(salt)
    } else {
        None
    }
}

/// The symmetric key of a vault, derived from its password and salt.
pub struct Crypt {
    key: [u8; 32],
}

impl Crypt {
    /// The key this value encrypts with.
    pub closed spec fn key(&self) -> Seq<u8> {
        self.key@
    }

    /// Derives the key from the password and the salt.
    pub fn new(passwort: String, salt: [u8; 16]) -> (r: Crypt)
        requires
            passwort@.len() <= MAX_SECRET_LEN / 4,
        ensures
            r.key() == pbkdf2_key(ITERATIONS, salt@, encode_utf8(passwort@)),
    {
        let secret = passwort.as_str().as_bytes();
        proof {
            lemma_utf8_len_bound(passwort@);
        }
        Crypt { key: derive_key(ITERATIONS, &salt, secret) }
    }

    /// Seals `input` under a given nonce and puts the nonce in front.
    pub fn encrypt_with_nonce(&self, input: Vec<u8>, nonce: [u8; 12]) -> (r: Result<
        Vec<u8>,
        CryptError,
    >)
        ensures
            r is Ok <==> input@.len() <= MAX_PLAIN_LEN,
            r matches Ok(blob) ==> blob@ == nonce@ + chacha_sealed(self.key(), nonce@, input@),
            r matches Ok(blob) ==> blob@.len() == NONCE_LEN + input@.len() + TAG_LEN,
            r is Err ==> r == Err::<Vec<u8>, CryptError>(CryptError::Encrypt),
    {
        match seal(&self.key, &nonce, input) {
            Some(sealed) => {
                let mut blob: Vec<u8> = Vec::new();
                let mut i: usize = 0;
                while i < NONCE_LEN
                    invariant
                        i <= NONCE_LEN,
                        blob@ == nonce@.subrange(0, i as int),
                    decreases NONCE_LEN - i,
                {
                    blob.push(nonce[i]);
                    i = i + 1;
                }
                let mut j: usize = 0;
                while j < sealed.len()
                    invariant
                        j <= sealed@.len(),
                        blob@ == nonce@ + sealed@.subrange(0, j as int),
                    decreases sealed@.len() - j,
                {
                    blob.push(sealed[j]);
                    j = j + 1;
                }
                assert(sealed@.subrange(0, sealed@.len() as int) == sealed@);
                Ok(blob)
            },
            None => Err(CryptError::Encrypt),
        }
    }

    /// Seals `input` under a fresh random nonce: the result opens to `input`
    /// under this key.
    pub fn encrypt(&self, input: Vec<u8>) -> (r: Result<Vec<u8>, CryptError>)
        ensures
            r matches Ok(blob) ==> seals(self.key(), blob@, input@),
            r matches Ok(blob) ==> blob@.len() == NONCE_LEN + input@.len() + TAG_LEN,
            input@.len() > MAX_PLAIN_LEN ==> r is Err,
            r is Err ==> r == Err::<Vec<u8>, CryptError>(CryptError::Encrypt),
    {
        let mut nonce = [0u8; 12];
        if !fill_random(&mut nonce) {
            return Err(CryptError::Encrypt);
        }
        let r = self.encrypt_with_nonce(input, nonce);
        if let Ok(blob) = &r {
            assert(blob@.subrange(0, NONCE_LEN as int) == nonce@);
            assert(blob@.subrange(NONCE_LEN as int, blob@.len() as int) == chacha_sealed(self.key(), nonce@, input@));
        }
        r
    }

    /// Opens a blob written by `encrypt`: the plaintext when the blob is the
    /// sealing of one under this key, `Decrypt` otherwise.
    pub fn decrypt(&self, input: Vec<u8>) -> (r: Result<Vec<u8>, CryptError>)
        ensures
            r matches Ok(p) ==> opens_to(self.key(), input@, p@),
            r is Err ==> r == Err::<Vec<u8>, CryptError>(CryptError::Decrypt) && forall|p: Seq<u8>|
                !#[trigger] seals(self.key(), input@, p),
    {
        if input.len() < NONCE_LEN {
            return Err(CryptError::Decrypt);
        }
        let mut nonce: Vec<u8> = Vec::new();
        let mut rest: Vec<u8> = Vec::new();
        let mut i: usize = 0;
        while i < input.len()
            invariant
                i <= input@.len(),
                input@.len() >= NONCE_LEN,
                i <= NONCE_LEN ==> nonce@ == input@.subrange(0, i as int) && rest@.len() == 0,
                i > NONCE_LEN ==> nonce@ == input@.subrange(0, NONCE_LEN as int) && rest@
                    == input@.subrange(NONCE_LEN as int, i as int),
            decreases input@.len() - i,
        {
            if i < NONCE_LEN {
                nonce.push(input[i]);
            } else {
                rest.push(input[i]);
            }
            i = i + 1;
        }
        assert(rest@ == input@.subrange(NONCE_LEN as int, input@.len() as int));
        assert(nonce@ == input@.subrange(0, NONCE_LEN as int));
        match open(&self.key, nonce.as_slice(), rest) {
            Some(p) => Ok(p),
            None => Err(CryptError::Decrypt),
        }
    }
}

/// Decrypting what was encrypted: a blob that seals `plain` opens to `plain`
/// and to nothing else, so decryption under the same key gives it back.
pub proof fn lemma_decrypt_encrypted(key: Seq<u8>, blob: Seq<u8>, plain: Seq<u8>, opened: Seq<u8>)
    requires
        seals(key, blob, plain),
        opens_to(key, blob, opened),
    ensures
        opened == plain,
{
}

/// A UTF-8 encoding takes at most four bytes per character.
proof fn lemma_utf8_len_bound(s: Seq<char>)
    ensures
        encode_utf8(s).len() <= 4 * s.len(),
    decreases s.len(),
{
    if s.len() > 0 {
        lemma_utf8_len_bound(s.drop_first());
    }
}

} // verus!
