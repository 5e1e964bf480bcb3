//! The closed set of supported key-derivation algorithms, each with its
//! canonical name, and the dispatch from an identifier to a derived key.
use vstd::prelude::*;
use vstd::utf8::{encode_utf8, is_ascii_chars, is_ascii_chars_encode_utf8};
use crate::strorder::str_cmp;
use crate::strorder::StrOrd;

verus! {

/// A supported key-derivation algorithm.
#[derive(Clone, Copy, Debug, PartialEq, Eq, Structural)]
pub enum KdfId {
    Sha256,
    Sha3,
    Scrypt,
    Argon2,
}

/// The algorithm used for newly created files.
pub const DEFAULT_KDF_ID: KdfId = KdfId::Argon2;

/// The canonical name of an algorithm, as it appears in configuration
/// and in the sealed container.
pub open spec fn kdf_name_chars(id: KdfId) -> Seq<char> {
    match id {
        KdfId::Sha256 => seq!['s', 'h', 'a', '2', '5', '6'],
        KdfId::Sha3 => seq!['s', 'h', 'a', '3'],
        KdfId::Scrypt => seq!['s', 'c', 'r', 'y', 'p', 't'],
        KdfId::Argon2 => seq!['a', 'r', 'g', 'o', 'n', '2'],
    }
}

/// The canonical name in its serialized (UTF-8, here plain ASCII) form.
pub open spec fn kdf_name_bytes(id: KdfId) -> Seq<u8> {
    encode_utf8(kdf_name_chars(id))
}

/// The algorithm a character sequence names, if any.
pub open spec fn kdf_of_chars(s: Seq<char>) -> Option<KdfId> {
    if s == kdf_name_chars(KdfId::Sha256) {
        Some(KdfId::Sha256)
    } else if s == kdf_name_chars(KdfId::Sha3) {
        Some(KdfId::Sha3)
    } else if s == kdf_name_chars(KdfId::Scrypt) {
        Some(KdfId::Scrypt)
    } else if s == kdf_name_chars(KdfId::Argon2) {
        Some(KdfId::Argon2)
    } else {
        None
    }
}

/// The algorithm a serialized name denotes, if any.
pub open spec fn kdf_of_name_bytes(b: Seq<u8>) -> Option<KdfId> {
    if b == kdf_name_bytes(KdfId::Sha256) {
        Some(KdfId::Sha256)
    } else if b == kdf_name_bytes(KdfId::Sha3) {
        Some(KdfId::Sha3)
    } else if b == kdf_name_bytes(KdfId::Scrypt) {
        Some(KdfId::Scrypt)
    } else if b == kdf_name_bytes(KdfId::Argon2) {
        Some(KdfId::Argon2)
    } else {
        None
    }
}

/// Every canonical name is ASCII.
pub proof fn lemma_kdf_name_ascii(id: KdfId)
    ensures
        is_ascii_chars(kdf_name_chars(id)),
        kdf_name_bytes(id).len() == kdf_name_chars(id).len(),
        1 <= kdf_name_bytes(id).len() <= 255,
{
    broadcast use is_ascii_chars_encode_utf8;

    match id {
        KdfId::Sha256 => {
            assert(is_ascii_chars(kdf_name_chars(id))) by {
                assert forall|i: int| 0 <= i < 6 implies '\0' <= #[trigger] kdf_name_chars(
                    id,
                )[i] <= '\u{7f}' by {}
            }
        },
        KdfId::Sha3 => {
            assert(is_ascii_chars(kdf_name_chars(id))) by {
                assert forall|i: int| 0 <= i < 4 implies '\0' <= #[trigger] kdf_name_chars(
                    id,
                )[i] <= '\u{7f}' by {}
            }
        },
        KdfId::Scrypt => {
            assert(is_ascii_chars(kdf_name_chars(id))) by {
                assert forall|i: int| 0 <= i < 6 implies '\0' <= #[trigger] kdf_name_chars(
                    id,
                )[i] <= '\u{7f}' by {}
            }
        },
        KdfId::Argon2 => {
            assert(is_ascii_chars(kdf_name_chars(id))) by {
                assert forall|i: int| 0 <= i < 6 implies '\0' <= #[trigger] kdf_name_chars(
                    id,
                )[i] <= '\u{7f}' by {}
            }
        },
    }
}

/// Reading a canonical serialized name back yields the algorithm it
/// was written for: the four names are pairwise distinct byte sequences.
pub proof fn lemma_kdf_name_bytes_reversible(id: KdfId)
    ensures
        kdf_of_name_bytes(kdf_name_bytes(id)) == Some(id),
{
    broadcast use is_ascii_chars_encode_utf8;

    lemma_kdf_name_ascii(KdfId::Sha256);
    lemma_kdf_name_ascii(KdfId::Sha3);
    lemma_kdf_name_ascii(KdfId::Scrypt);
    lemma_kdf_name_ascii(KdfId::Argon2);
    assert(kdf_name_bytes(KdfId::Sha256)[1] == 'h' as u8);
    assert(kdf_name_bytes(KdfId::Scrypt)[1] == 'c' as u8);
    assert(kdf_name_bytes(KdfId::Sha256)[0] == 's' as u8);
    assert(kdf_name_bytes(KdfId::Argon2)[0] == 'a' as u8);
    assert(kdf_name_bytes(KdfId::Scrypt)[0] == 's' as u8);
    assert(kdf_name_bytes(KdfId::Sha3).len() == 4);
}

impl KdfId {
    /// The canonical string name of this algorithm.
    pub fn to_str(self) -> (r: &'static str)
        ensures
            r@ == kdf_name_chars(self),
    {
        match self {
            KdfId::Sha256 => {
                let s = "sha256";
                proof {
                    reveal_strlit("sha256");
                    assert(s@ =~= kdf_name_chars(self));
                }
                s
            },
            KdfId::Sha3 => {
                let s = "sha3";
                proof {
                    reveal_strlit("sha3");
                    assert(s@ =~= kdf_name_chars(self));
                }
                s
            },
            KdfId::Scrypt => {
                let s = "scrypt";
                proof {
                    reveal_strlit("scrypt");
                    assert(s@ =~= kdf_name_chars(self));
                }
                s
            },
            KdfId::Argon2 => {
                let s = "argon2";
                proof {
                    reveal_strlit("argon2");
                    assert(s@ =~= kdf_name_chars(self));
                }
                s
            },
        }
    }

    /// The algorithm a name denotes, or `None` for an unknown name.
    pub fn from_str(name: &str) -> (r: Option<KdfId>)
        ensures
            r == kdf_of_chars(name@),
    {
        if matches!(str_cmp(name, KdfId::Sha256.to_str()), StrOrd::Equal) {
            Some(KdfId::Sha256)
        } else if matches!(str_cmp(name, KdfId::Sha3.to_str()), StrOrd::Equal) {
            Some(KdfId::Sha3)
        } else if matches!(str_cmp(name, KdfId::Scrypt.to_str()), StrOrd::Equal) {
            Some(KdfId::Scrypt)
        } else if matches!(str_cmp(name, KdfId::Argon2.to_str()), StrOrd::Equal) {
            Some(KdfId::Argon2)
        } else {
            None
        }
    }

    /// All supported algorithms, in a fixed listing order.
    pub fn get_known_ids() -> (r: Vec<KdfId>)
        ensures
            r@ =~= seq![KdfId::Sha256, KdfId::Sha3, KdfId::Scrypt, KdfId::Argon2],
    {
        let mut v: Vec<KdfId> = Vec::new();
        v.push(KdfId::Sha256);
        v.push(KdfId::Sha3);
        v.push(KdfId::Scrypt);
        v.push(KdfId::Argon2);
        v
    }
}

/// Iterated SHA3-256: rehash the running digest followed by the password,
/// `n` more times.
pub open spec fn sha3_iter(password: Seq<u8>, acc: Seq<u8>, n: nat) -> Seq<u8>
    decreases n,
{
    if n == 0 {
        acc
    } else {
        sha3_iter(password, crate::crypto::sha3_256_of(acc + password), (n - 1) as nat)
    }
}

/// Rounds of the iterated SHA3-256 deriver.
pub const SHA3_KDF_ROUNDS: u32 = 10000;

/// The SHA3-256-based derived key: hash salt and password, then rehash
/// digest and password for a fixed number of rounds.
pub open spec fn sha3_kdf(password: Seq<u8>, salt: Seq<u8>) -> Seq<u8> {
    sha3_iter(
        password,
        crate::crypto::sha3_256_of(salt + password),
        SHA3_KDF_ROUNDS as nat,
    )
}

/// Joins two byte strings.
fn concat_bytes(a: &[u8], b: &[u8]) -> (r: Vec<u8>)
    ensures
        r@ == a@ + b@,
{
    let mut v = vstd::slice::slice_to_vec(a);
    let mut bv = vstd::slice::slice_to_vec(b);
    v.append(&mut bv);
    v
}

/// The iterated SHA3-256 deriver, a verified loop over the digest.
#[verifier::loop_isolation(false)]
fn derive_sha3(password: &[u8], salt: &[u8]) -> (r: Vec<u8>)
    ensures
        r@ == sha3_kdf(password@, salt@),
        r@.len() == 32,
{
    let seed = concat_bytes(salt, password);
    let mut cur = crate::crypto::sha3_digest(seed.as_slice());
    let mut i: u32 = 0;
    while i < SHA3_KDF_ROUNDS
        invariant
            i <= SHA3_KDF_ROUNDS,
            cur@.len() == 32,
            sha3_kdf(password@, salt@) == sha3_iter(
                password@,
                cur@,
                (SHA3_KDF_ROUNDS - i) as nat,
            ),
        decreases SHA3_KDF_ROUNDS - i,
    {
        let buf = concat_bytes(cur.as_slice(), password);
        cur = crate::crypto::sha3_digest(buf.as_slice());
        i = i + 1;
    }
    cur
}

/// The key that algorithm `id` derives from a password and a salt.
pub open spec fn derived_key(id: KdfId, password: Seq<u8>, salt: Seq<u8>) -> Seq<u8> {
    match id {
        KdfId::Sha256 => crate::crypto::pbkdf2_sha256_key(password, salt),
        KdfId::Sha3 => sha3_kdf(password, salt),
        KdfId::Scrypt => crate::crypto::scrypt_key(password, salt),
        KdfId::Argon2 => crate::crypto::argon2_key(password, salt),
    }
}

/// Derives the 32-byte key for `id`: a pure, deterministic function of
/// the algorithm, the password bytes and the salt.
pub fn derive_key(id: KdfId, password: &[u8], salt: &[u8]) -> (r: Vec<u8>)
    requires
        8 <= salt@.len() <= 64,
        password@.len() <= 0xffff_ffff,
    ensures
        r@ == derived_key(id, password@, salt@),
        r@.len() == 32,
{
    match id {
        KdfId::Sha256 => crate::crypto::derive_pbkdf2_sha256(password, salt),
        KdfId::Sha3 => derive_sha3(password, salt),
        KdfId::Scrypt => crate::crypto::derive_scrypt(password, salt),
        KdfId::Argon2 => crate::crypto::derive_argon2(password, salt),
    }
}

/// Resolves a configured algorithm name, silently replacing an unknown
/// name by the given default: an invalid configuration value only ever
/// affects how future writes derive their key, so it must not fail.
pub fn resolve_kdf(name: &str, default: KdfId) -> (r: KdfId)
    ensures
        r == match kdf_of_chars(name@) {
            Some(id) => id,
            None => default,
        },
{
    match KdfId::from_str(name) {
        Some(id) => id,
        None => default,
    }
}

} // verus!
