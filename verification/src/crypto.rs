//! Trusted boundary to the cryptographic backends: AES-256-GCM, the four
//! key-derivation functions, and the operating system's entropy source.
//! Each wrapper's contract states only what the backend's source or
//! documentation shows.
use vstd::prelude::*;
use aes_gcm::KeyInit;
use aes_gcm::aead::Aead;
use rand::TryRng;
use sha3::Digest;

verus! {

/// The longest plaintext AES-GCM accepts (its `P_MAX`, `2^36 - 32`).
pub const GCM_P_MAX: u64 = 0xf_ffff_ffe0;

/// What AES-256-GCM produces for a key, a nonce and a plaintext: the
/// ciphertext with its 16-byte tag appended. A deterministic function of
/// the three arguments alone.
pub uninterp spec fn gcm_seal_bytes(key: Seq<u8>, nonce: Seq<u8>, plaintext: Seq<u8>) -> Seq<u8>;

/// Relies on `aes_gcm::Aes256Gcm` (`aead::Aead::encrypt`): AES-256-GCM is
/// deterministic in key, nonce and plaintext and appends the 16-byte tag;
/// within the documented plaintext bound it cannot fail.
#[verifier::external_body]
pub(crate) fn aes256_gcm_encrypt(key: &[u8], nonce: &[u8], plaintext: &[u8]) -> (r: Vec<u8>)
    requires
        key@.len() == 32,
        nonce@.len() == 12,
        plaintext@.len() <= GCM_P_MAX,
    ensures
        r@ == gcm_seal_bytes(key@, nonce@, plaintext@),
        r@.len() == plaintext@.len() + 16,
{
    let cipher = aes_gcm::Aes256Gcm::new_from_slice(key).expect("the key is 32 bytes");
    let nonce_arr = aes_gcm::Nonce::try_from(nonce).expect("the nonce is 12 bytes");
    cipher.encrypt(&nonce_arr, plaintext).expect("the plaintext is within the AES-GCM bound")
}

/// Relies on `aes_gcm::Aes256Gcm` (`aead::Aead::decrypt`): decryption
/// succeeds exactly when the trailing 16-byte tag authenticates under the
/// key and nonce — that is, on byte strings this cipher itself produces —
/// and then returns the plaintext that was sealed.
#[verifier::external_body]
pub(crate) fn aes256_gcm_decrypt(key: &[u8], nonce: &[u8], ct: &[u8]) -> (r: Option<Vec<u8>>)
    requires
        key@.len() == 32,
        nonce@.len() == 12,
    ensures
        forall|pt: Seq<u8>|
            pt.len() <= GCM_P_MAX && ct@ == gcm_seal_bytes(key@, nonce@, pt) ==> r is Some
                && r->0@ == pt,
        r is Some ==> r->0@.len() + 16 == ct@.len() && r->0@.len() <= GCM_P_MAX && ct@
            == gcm_seal_bytes(key@, nonce@, r->0@),
{
    let cipher = aes_gcm::Aes256Gcm::new_from_slice(key).expect("the key is 32 bytes");
    let nonce_arr = aes_gcm::Nonce::try_from(nonce).expect("the nonce is 12 bytes");
    cipher.decrypt(&nonce_arr, ct).ok()
}

/// What the Argon2id deriver returns for a password and a salt, with
/// this crate's fixed cost parameters and a 32-byte output.
pub uninterp spec fn argon2_key(password: Seq<u8>, salt: Seq<u8>) -> Seq<u8>;

/// Relies on `argon2::Argon2::hash_password_into` (Argon2id, version
/// 0x13, fixed parameters: 4 MiB, one pass, one lane): the derived key is
/// a deterministic function of password and salt alone. With a salt of 8
/// to 2^32 - 1 bytes, a password of at most 2^32 - 1 bytes and a 32-byte
/// output, its only documented failure is running out of working memory,
/// treated here as any other allocation failure.
#[verifier::external_body]
pub(crate) fn derive_argon2(password: &[u8], salt: &[u8]) -> (r: Vec<u8>)
    requires
        8 <= salt@.len() <= 64,
        password@.len() <= 0xffff_ffff,
    ensures
        r@ == argon2_key(password@, salt@),
        r@.len() == 32,
{
    let mut out = [0u8; 32];
    let params = argon2::Params::new(4096, 1, 1, Some(32)).expect("fixed parameters are valid");
    argon2::Argon2::new(argon2::Algorithm::Argon2id, argon2::Version::V0x13, params)
        .hash_password_into(password, salt, &mut out)
        .expect("the inputs are within the documented bounds");
    out.to_vec()
}

/// What the scrypt deriver returns for a password and a salt, with this
/// crate's fixed cost parameters and a 32-byte output.
pub uninterp spec fn scrypt_key(password: Seq<u8>, salt: Seq<u8>) -> Seq<u8>;

/// Relies on `scrypt::scrypt` with fixed parameters (log2 N = 12, r = 8,
/// p = 1): deterministic in password and salt; its only documented failure
/// is an invalid output length, which a 32-byte output is not.
#[verifier::external_body]
pub(crate) fn derive_scrypt(password: &[u8], salt: &[u8]) -> (r: Vec<u8>)
    ensures
        r@ == scrypt_key(password@, salt@),
        r@.len() == 32,
{
    let mut out = [0u8; 32];
    let params = scrypt::Params::new(12, 8, 1).expect("fixed scrypt parameters are valid");
    scrypt::scrypt(password, salt, &params, &mut out).expect("a 32-byte output is valid");
    out.to_vec()
}

/// What PBKDF2-HMAC-SHA-256 returns for a password and a salt, with this
/// crate's fixed round count (10000) and a 32-byte output.
pub uninterp spec fn pbkdf2_sha256_key(password: Seq<u8>, salt: Seq<u8>) -> Seq<u8>;

/// Relies on `pbkdf2::pbkdf2_hmac` instantiated at `sha2::Sha256` with
/// 10000 rounds: deterministic in password and salt, and infallible.
#[verifier::external_body]
pub(crate) fn derive_pbkdf2_sha256(password: &[u8], salt: &[u8]) -> (r: Vec<u8>)
    ensures
        r@ == pbkdf2_sha256_key(password@, salt@),
        r@.len() == 32,
{
    let mut out = [0u8; 32];
    pbkdf2::pbkdf2_hmac::<sha2::Sha256>(password, salt, 10000, &mut out);
    out.to_vec()
}

/// What SHA3-256 returns for a byte string: its 32-byte digest, a
/// function of the input alone.
pub uninterp spec fn sha3_256_of(bytes: Seq<u8>) -> Seq<u8>;

/// Relies on `sha3::Sha3_256` (`digest::Digest::digest`): the 32-byte
/// SHA3-256 digest of the input, deterministic and infallible.
#[verifier::external_body]
pub(crate) fn sha3_digest(bytes: &[u8]) -> (r: Vec<u8>)
    ensures
        r@ == sha3_256_of(bytes@),
        r@.len() == 32,
{
    sha3::Sha3_256::digest(bytes).to_vec()
}

/// Relies on `rand::rngs::SysRng` (`rand::TryRng::try_fill_bytes`), the
/// operating system's entropy source. Nothing is assumed of the bytes
/// beyond their count: two calls may return anything.
#[verifier::external_body]
pub(crate) fn random_bytes(n: usize) -> (r: Option<Vec<u8>>)
    ensures
        r is Some ==> r->0@.len() == n,
{
    let mut buf = vec![0u8; n];
    let mut rng = rand::rngs::SysRng;
    match rng.try_fill_bytes(&mut buf) {
        Ok(()) => Some(buf),
        Err(_) => None,
    }
}

} // verus!
