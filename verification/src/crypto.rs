//! The cryptography the substrate relies on: SHA-256 digests, ed25519 keys
//! and signatures, and bech32 addresses. Each operation is the outside
//! crate's; the contracts say what its documentation promises.

use ed25519_dalek::{Signer, Verifier};
use sha2::Digest;
use vstd::prelude::*;

verus! {

/// The bytes of `b`, which holds exactly 64 of them, as an array.
pub fn bytes_to_array64(b: &[u8]) -> (a: [u8; 64])
    requires
        b@.len() == 64,
    ensures
        a@ == b@,
{
    let mut a = [0u8; 64];
    let mut i: usize = 0;
    while i < 64
        invariant
            i <= 64,
            b@.len() == 64,
            forall|k: int| 0 <= k < i ==> a@[k] == b@[k],
        decreases 64 - i,
    {
        a[i] = b[i];
        i = i + 1;
    }
    assert(a@ =~= b@);
    a
}

/// The SHA-256 digest of `data`.
pub uninterp spec fn spec_sha256(data: Seq<u8>) -> Seq<u8>;

/// The ed25519 public key that belongs to the 32-byte secret key `secret`.
pub uninterp spec fn spec_ed25519_public(secret: Seq<u8>) -> Seq<u8>;

/// The ed25519 signature of `message` under the secret key `secret`.
pub uninterp spec fn spec_ed25519_sign(secret: Seq<u8>, message: Seq<u8>) -> Seq<u8>;

/// Whether `signature` is a valid ed25519 signature of `message` under the
/// public key `public`.
pub uninterp spec fn spec_ed25519_verify(public: Seq<u8>, message: Seq<u8>, signature: Seq<u8>) -> bool;

/// The bech32 encoding of `data` under the human-readable part `hrp`.
pub uninterp spec fn spec_bech32(hrp: Seq<char>, data: Seq<u8>) -> Seq<char>;

/// `sha2::Sha256::digest`: the SHA-256 digest of `data`.
/// Trusted: the result is named by `spec_sha256`, a function of `data` alone.
#[verifier::external_body]
pub(crate) fn sha256(data: &[u8]) -> (digest: [u8; 32])
    ensures
        digest@ == spec_sha256(data@),
{
    sha2::Sha256::digest(data).into()
}

/// `ed25519_dalek::SigningKey::verifying_key`: the public key of a secret key.
/// Trusted: the result is named by `spec_ed25519_public`, a function of the
/// secret key alone.
#[verifier::external_body]
pub(crate) fn ed25519_public_key(secret: &[u8; 32]) -> (public: [u8; 32])
    ensures
        public@ == spec_ed25519_public(secret@),
{
    ed25519_dalek::SigningKey::from_bytes(secret).verifying_key().to_bytes()
}

/// `ed25519_dalek::Signer::sign` on a `SigningKey`: the deterministic
/// ed25519 signature of `message`.
/// Trusted: the result is named by `spec_ed25519_sign`, a function of the
/// secret key and the message alone.
#[verifier::external_body]
pub(crate) fn ed25519_sign(secret: &[u8; 32], message: &[u8]) -> (signature: [u8; 64])
    ensures
        signature@ == spec_ed25519_sign(secret@, message@),
{
    ed25519_dalek::SigningKey::from_bytes(secret).sign(message).to_bytes()
}

/// `ed25519_dalek::VerifyingKey::from_bytes` followed by `Verifier::verify`:
/// whether `signature` verifies for `message` under `public`; bytes that are
/// no curve point verify nothing.
/// Trusted: the result is named by `spec_ed25519_verify`; as the crate's
/// documentation shows, a signature made with a secret key verifies under its
/// public key.
#[verifier::external_body]
pub(crate) fn ed25519_verify(public: &[u8; 32], message: &[u8], signature: &[u8; 64]) -> (valid: bool)
    ensures
        valid == spec_ed25519_verify(public@, message@, signature@),
        forall|secret: Seq<u8>|
            secret.len() == 32 && #[trigger] spec_ed25519_public(secret) == public@ && spec_ed25519_sign(
                secret,
                message@,
            ) == signature@ ==> valid,
{
    let Ok(key) = ed25519_dalek::VerifyingKey::from_bytes(public) else {
        return false;
    };
    key.verify(message, &ed25519_dalek::Signature::from_bytes(signature)).is_ok()
}

/// `ed25519_dalek::SigningKey::generate` with the operating system's random
/// source: a fresh secret key.
/// Trusted: nothing is stated of the key, which is random.
#[verifier::external_body]
pub(crate) fn random_secret_key() -> (secret: [u8; 32]) {
    ed25519_dalek::SigningKey::generate(&mut rand::rngs::OsRng).to_bytes()
}

/// A human-readable part that `bech32::Hrp::parse` accepts: one to 83
/// lowercase ASCII letters and digits.
pub open spec fn valid_hrp(hrp: Seq<char>) -> bool {
    &&& 1 <= hrp.len() <= 83
    &&& forall|i: int|
        0 <= i < hrp.len() ==> ('a' <= #[trigger] hrp[i] <= 'z') || ('0' <= hrp[i] <= '9')
}

/// `bech32::encode::<Bech32>` with the part `bech32::Hrp::parse(hrp)`: the
/// lowercase bech32 string of `data`.
/// Trusted: the result is named by `spec_bech32`; as the crate's source
/// shows, it starts with the human-readable part and the separator `1`.
/// Parsing cannot fail for a valid part, nor encoding for at most 500 bytes:
/// a part of at most 83 characters, the separator, 800 data characters and
/// the 6 of the checksum stay within the code length of 1023.
#[verifier::external_body]
pub(crate) fn bech32_encode(hrp: &str, data: &[u8]) -> (encoded: String)
    requires
        valid_hrp(hrp@),
        data@.len() <= 500,
    ensures
        encoded@ == spec_bech32(hrp@, data@),
        encoded@.len() > hrp@.len(),
        encoded@.take(hrp@.len() as int + 1) == hrp@.push('1'),
{
    let part = bech32::Hrp::parse(hrp).expect("valid human-readable part");
    bech32::encode::<bech32::Bech32>(part, data).expect("data within the code length")
}

} // verus!
