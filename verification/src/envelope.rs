//! The authenticated encryption envelope: a self-describing container
//! holding the algorithm name, the per-file salt, the per-seal nonce and
//! the authenticated ciphertext. A container is opened with the password
//! alone; all open failures are one indistinguishable error.
use vstd::prelude::*;
use vstd::slice::slice_subrange;
use vstd::slice::slice_to_vec;
use vstd::string::StrSliceExecFns;
use vstd::string::StringSliceAdditionalSpecFns;
use vstd::utf8::encode_utf8;
use crate::PwmanError;
use crate::crypto::GCM_P_MAX;
use crate::crypto::aes256_gcm_decrypt;
use crate::crypto::aes256_gcm_encrypt;
use crate::crypto::gcm_seal_bytes;
use crate::crypto::random_bytes;
use crate::kdf::KdfId;
use crate::kdf::derive_key;
use crate::kdf::derived_key;
use crate::kdf::kdf_name_bytes;
use crate::kdf::kdf_of_name_bytes;
use crate::kdf::lemma_kdf_name_ascii;
use crate::kdf::lemma_kdf_name_bytes_reversible;

verus! {

/// Bytes of per-file salt for key derivation.
pub const SALT_LEN: usize = 16;

/// Bytes of per-seal nonce for AES-GCM.
pub const NONCE_LEN: usize = 12;

/// The serialized container: one byte of name length, the algorithm's
/// canonical name, the salt, the nonce, then ciphertext and tag.
pub open spec fn env_encode(id: KdfId, salt: Seq<u8>, nonce: Seq<u8>, ct: Seq<u8>) -> Seq<u8> {
    seq![kdf_name_bytes(id).len() as u8] + kdf_name_bytes(id) + salt + nonce + ct
}

/// The container's fields, or `None` when it is malformed or names an
/// unrecognized algorithm.
pub open spec fn env_parse(data: Seq<u8>) -> Option<(KdfId, Seq<u8>, Seq<u8>, Seq<u8>)> {
    if data.len() < 1 {
        None
    } else {
        let nlen = data[0] as int;
        if data.len() < 1 + nlen + 16 + 12 + 16 {
            None
        } else {
            match kdf_of_name_bytes(data.subrange(1, 1 + nlen)) {
                None => None,
                Some(id) => Some(
                    (
                        id,
                        data.subrange(1 + nlen, 17 + nlen),
                        data.subrange(17 + nlen, 29 + nlen),
                        data.subrange(29 + nlen, data.len() as int),
                    ),
                ),
            }
        }
    }
}

/// The complete sealed container for the given inputs: derive the key
/// from password and salt, seal the plaintext under (key, nonce), frame.
pub open spec fn seal_spec(
    id: KdfId,
    password: Seq<char>,
    salt: Seq<u8>,
    nonce: Seq<u8>,
    plaintext: Seq<u8>,
) -> Seq<u8> {
    env_encode(
        id,
        salt,
        nonce,
        gcm_seal_bytes(derived_key(id, encode_utf8(password), salt), nonce, plaintext),
    )
}

/// The inputs of a well-formed seal: field sizes as the container frames
/// them, the plaintext within the cipher's bound, and the ciphertext one
/// tag longer than the plaintext (what the cipher guarantees).
pub open spec fn sealed_wf(
    id: KdfId,
    password: Seq<char>,
    salt: Seq<u8>,
    nonce: Seq<u8>,
    plaintext: Seq<u8>,
) -> bool {
    &&& salt.len() == SALT_LEN
    &&& nonce.len() == NONCE_LEN
    &&& plaintext.len() <= GCM_P_MAX
    &&& encode_utf8(password).len() <= 0xffff_ffff
    &&& gcm_seal_bytes(derived_key(id, encode_utf8(password), salt), nonce, plaintext).len()
        == plaintext.len() + 16
}

/// Round trip of the container framing: parsing a framed container
/// recovers its fields exactly.
pub proof fn lemma_env_round_trip(id: KdfId, salt: Seq<u8>, nonce: Seq<u8>, ct: Seq<u8>)
    requires
        salt.len() == SALT_LEN,
        nonce.len() == NONCE_LEN,
        ct.len() >= 16,
    ensures
        env_parse(env_encode(id, salt, nonce, ct)) == Some((id, salt, nonce, ct)),
{
    lemma_kdf_name_ascii(id);
    lemma_kdf_name_bytes_reversible(id);
    let data = env_encode(id, salt, nonce, ct);
    let nlen = kdf_name_bytes(id).len() as int;
    assert(data[0] == nlen as u8);
    assert(data.subrange(1, 1 + nlen) =~= kdf_name_bytes(id));
    assert(data.subrange(1 + nlen, 17 + nlen) =~= salt);
    assert(data.subrange(17 + nlen, 29 + nlen) =~= nonce);
    assert(data.subrange(29 + nlen, data.len() as int) =~= ct);
}

/// Compares two byte strings.
#[verifier::loop_isolation(false)]
fn bytes_eq(a: &[u8], b: &[u8]) -> (r: bool)
    ensures
        r == (a@ == b@),
{
    if a.len() != b.len() {
        return false;
    }
    let n = a.len();
    let mut i: usize = 0;
    while i < n
        invariant
            i <= n,
            forall|j: int| 0 <= j < i ==> a@[j] == b@[j],
        decreases n - i,
    {
        if a[i] != b[i] {
            return false;
        }
        i = i + 1;
    }
    proof {
        assert(a@ =~= b@);
    }
    true
}

/// The algorithm a serialized name denotes, if any.
fn kdf_from_name_bytes(name: &[u8]) -> (r: Option<KdfId>)
    ensures
        r == kdf_of_name_bytes(name@),
{
    if bytes_eq(name, KdfId::Sha256.to_str().as_bytes()) {
        Some(KdfId::Sha256)
    } else if bytes_eq(name, KdfId::Sha3.to_str().as_bytes()) {
        Some(KdfId::Sha3)
    } else if bytes_eq(name, KdfId::Scrypt.to_str().as_bytes()) {
        Some(KdfId::Scrypt)
    } else if bytes_eq(name, KdfId::Argon2.to_str().as_bytes()) {
        Some(KdfId::Argon2)
    } else {
        None
    }
}

/// Splits a container into its fields, exactly as `env_parse` reads it.
fn parse_env(data: &[u8]) -> (r: Option<(KdfId, Vec<u8>, Vec<u8>, Vec<u8>)>)
    ensures
        r is None <==> env_parse(data@) is None,
        r is Some ==> env_parse(data@) == Some(
            ((r->0).0, (r->0).1@, (r->0).2@, (r->0).3@),
        ),
{
    if data.len() < 1 {
        return None;
    }
    let nlen = data[0] as usize;
    if data.len() < 1 + nlen + 44 {
        return None;
    }
    let name = slice_subrange(data, 1, 1 + nlen);
    let id = match kdf_from_name_bytes(name) {
        None => {
            return None;
        },
        Some(id) => id,
    };
    let salt = slice_to_vec(slice_subrange(data, 1 + nlen, 17 + nlen));
    let nonce = slice_to_vec(slice_subrange(data, 17 + nlen, 29 + nlen));
    let ct = slice_to_vec(slice_subrange(data, 29 + nlen, data.len()));
    Some((id, salt, nonce, ct))
}

/// Validates a password before any derivation is attempted: cheap early
/// rejection, distinct from derivation or authentication failures. The
/// only check is that the password is non-empty.
pub fn check_password(password: &str) -> (r: Option<PwmanError>)
    ensures
        r is Some <==> password@.len() == 0,
        r is Some ==> r->0 == PwmanError::BadPassword,
{
    if password.is_empty() {
        Some(PwmanError::BadPassword)
    } else {
        None
    }
}

/// Seals `plaintext` under the key derived from `password` and the given
/// salt, with the given nonce: the deterministic core of `seal`. Fails
/// exactly when the plaintext or the password is over the cipher's or
/// the deriver's documented bound.
pub fn seal_with(password: &str, id: KdfId, salt: &[u8], nonce: &[u8], plaintext: &[u8]) -> (r:
    Result<Vec<u8>, PwmanError>)
    requires
        salt@.len() == SALT_LEN,
        nonce@.len() == NONCE_LEN,
    ensures
        r is Ok <==> (plaintext@.len() <= GCM_P_MAX && encode_utf8(password@).len()
            <= 0xffff_ffff),
        r is Ok ==> sealed_wf(id, password@, salt@, nonce@, plaintext@) && r->Ok_0@ == seal_spec(
            id,
            password@,
            salt@,
            nonce@,
            plaintext@,
        ),
        r is Err ==> r->Err_0 == PwmanError::TooLarge,
{
    let pw = password.as_bytes_vec();
    if (pw.len() as u64) > 0xffff_ffffu64 {
        return Err(PwmanError::TooLarge);
    }
    if (plaintext.len() as u64) > GCM_P_MAX {
        return Err(PwmanError::TooLarge);
    }
    let key = derive_key(id, pw.as_slice(), salt);
    let ct = aes256_gcm_encrypt(key.as_slice(), nonce, plaintext);
    let name = id.to_str().as_bytes_vec();
    proof {
        lemma_kdf_name_ascii(id);
    }
    let mut out: Vec<u8> = Vec::new();
    out.push(name.len() as u8);
    let mut tmp = name;
    out.append(&mut tmp);
    let mut tmp2 = slice_to_vec(salt);
    out.append(&mut tmp2);
    let mut tmp3 = slice_to_vec(nonce);
    out.append(&mut tmp3);
    let mut tmp4 = ct;
    out.append(&mut tmp4);
    proof {
        assert(out@ =~= seal_spec(id, password@, salt@, nonce@, plaintext@));
    }
    Ok(out)
}

/// Seals `plaintext` under `password`: generates a fresh random salt and
/// a fresh random nonce, derives the key, seals, and frames the
/// container. Every seal is self-contained and independently openable.
pub fn seal(password: &str, id: KdfId, plaintext: &[u8]) -> (r: Result<Vec<u8>, PwmanError>)
    ensures
        r is Ok ==> exists|salt: Seq<u8>, nonce: Seq<u8>|
            sealed_wf(id, password@, salt, nonce, plaintext@) && r->Ok_0@ == seal_spec(
                id,
                password@,
                salt,
                nonce,
                plaintext@,
            ),
        r is Err ==> r->Err_0 == PwmanError::Backend || (r->Err_0 == PwmanError::TooLarge && (
        plaintext@.len() > GCM_P_MAX || encode_utf8(password@).len() > 0xffff_ffff)),
{
    let salt = match random_bytes(SALT_LEN) {
        None => {
            return Err(PwmanError::Backend);
        },
        Some(s) => s,
    };
    let nonce = match random_bytes(NONCE_LEN) {
        None => {
            return Err(PwmanError::Backend);
        },
        Some(n) => n,
    };
    let r = seal_with(password, id, salt.as_slice(), nonce.as_slice(), plaintext);
    proof {
        if r is Ok {
            assert(sealed_wf(id, password@, salt@, nonce@, plaintext@) && r->Ok_0@ == seal_spec(
                id,
                password@,
                salt@,
                nonce@,
                plaintext@,
            ));
        }
    }
    r
}

/// Opens a sealed container with the password alone: parses the frame,
/// derives the key from the recorded algorithm and salt, and decrypts.
/// A malformed container, an unrecognized algorithm name, a wrong
/// password and tampered bytes all fail with the same single error.
/// Whatever was sealed under this password is returned intact.
pub fn open(password: &str, data: &[u8]) -> (r: Result<Vec<u8>, PwmanError>)
    ensures
        r is Err ==> r->Err_0 == PwmanError::CannotOpen,
        env_parse(data@) is None ==> r is Err,
        forall|id: KdfId, salt: Seq<u8>, nonce: Seq<u8>, pt: Seq<u8>|
            sealed_wf(id, password@, salt, nonce, pt) && data@ == seal_spec(
                id,
                password@,
                salt,
                nonce,
                pt,
            ) ==> r is Ok && r->Ok_0@ == pt,
{
    let parsed = match parse_env(data) {
        None => {
            proof {
                assert forall|id: KdfId, salt: Seq<u8>, nonce: Seq<u8>, pt: Seq<u8>|
                    !(sealed_wf(id, password@, salt, nonce, pt) && data@ == seal_spec(
                        id,
                        password@,
                        salt,
                        nonce,
                        pt,
                    )) by {
                    if sealed_wf(id, password@, salt, nonce, pt) && data@ == seal_spec(
                        id,
                        password@,
                        salt,
                        nonce,
                        pt,
                    ) {
                        lemma_env_round_trip(
                            id,
                            salt,
                            nonce,
                            gcm_seal_bytes(
                                derived_key(id, encode_utf8(password@), salt),
                                nonce,
                                pt,
                            ),
                        );
                    }
                }
            }
            return Err(PwmanError::CannotOpen);
        },
        Some(p) => p,
    };
    let (id, salt, nonce, ct) = parsed;
    let pw = password.as_bytes_vec();
    if (pw.len() as u64) > 0xffff_ffffu64 {
        return Err(PwmanError::CannotOpen);
    }
    let key = derive_key(id, pw.as_slice(), salt.as_slice());
    let r = aes256_gcm_decrypt(key.as_slice(), nonce.as_slice(), ct.as_slice());
    proof {
        assert forall|id2: KdfId, salt2: Seq<u8>, nonce2: Seq<u8>, pt2: Seq<u8>|
            sealed_wf(id2, password@, salt2, nonce2, pt2) && data@ == seal_spec(
                id2,
                password@,
                salt2,
                nonce2,
                pt2,
            ) implies r is Some && r->0@ == pt2 by {
            let ct2 = gcm_seal_bytes(derived_key(id2, encode_utf8(password@), salt2), nonce2, pt2);
            lemma_env_round_trip(id2, salt2, nonce2, ct2);
            assert(env_parse(data@) == Some((id2, salt2, nonce2, ct2)));
            assert(id == id2 && salt@ == salt2 && nonce@ == nonce2 && ct@ == ct2);
            assert(key@ == derived_key(id2, encode_utf8(password@), salt2));
        }
    }
    match r {
        None => Err(PwmanError::CannotOpen),
        Some(pt) => Ok(pt),
    }
}

} // verus!
