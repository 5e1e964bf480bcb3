//! A password-manager core: an ordered key/value secret store with dirty
//! tracking, a canonical record serialization, and an authenticated
//! encryption envelope keyed by a password-derived key with a selectable
//! key-derivation function.
use vstd::prelude::*;

pub mod codec;
pub mod crypto;
pub mod envelope;
pub mod kdf;
pub mod store;
pub mod strorder;

verus! {

/// Errors surfaced by the store and the crypto envelope.
///
/// Every failure of `open`/`from_enc_file` is reported as the single
/// `CannotOpen` kind: a malformed container, an unrecognized algorithm
/// name and an authentication failure are indistinguishable by design.
#[derive(Clone, Copy, Debug, PartialEq, Eq, Structural)]
pub enum PwmanError {
    /// The plaintext byte stream is not a well-formed record sequence.
    Format,
    /// The envelope could not be opened: malformed container, unknown
    /// algorithm, wrong password or tampered ciphertext.
    CannotOpen,
    /// An entry or a plaintext buffer is too large to be framed or sealed.
    TooLarge,
    /// The operating system's entropy source refused random bytes.
    Backend,
    /// The password fails the cheap acceptance check (it is empty).
    BadPassword,
}

} // verus!
