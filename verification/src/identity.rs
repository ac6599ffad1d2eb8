//! Node identity: an ed25519 keypair with a Cosmos-compatible bech32 address.
//!
//! The same keypair serves as the node's identity, signing its traces, and
//! as a valid Oasyce/Cosmos wallet address.

use vstd::prelude::*;

use crate::crypto::{
    bech32_encode, ed25519_public_key, ed25519_sign, ed25519_verify, random_secret_key, sha256, spec_bech32,
    spec_ed25519_public, spec_ed25519_sign, spec_ed25519_verify, spec_sha256,
};
use crate::text::{hex_string, spec_hex};

verus! {

/// Length in bytes of a key file: the raw secret key.
pub const KEY_FILE_LEN: usize = 32;

/// Bytes of the public key's digest that make up an address.
pub const ADDRESS_BYTES: usize = 20;

/// Why a key file was refused.
#[derive(Debug, PartialEq, Eq, Structural, Clone, Copy)]
pub enum KeyFileError {
    /// The key file must hold exactly 32 bytes.
    WrongLength,
}

/// A node's identity: an ed25519 secret key and the public key that belongs
/// to it.
pub struct NodeIdentity {
    secret: [u8; 32],
    public: [u8; 32],
}

impl NodeIdentity {
    /// The public key belongs to the secret key.
    #[verifier::type_invariant]
    spec fn keys_match(self) -> bool {
        self.public@ == spec_ed25519_public(self.secret@)
    }

    /// The secret key.
    pub closed spec fn secret_key(self) -> Seq<u8> {
        self.secret@
    }

    /// The public key.
    pub closed spec fn public_key(self) -> Seq<u8> {
        self.public@
    }

    /// The identity with secret key `secret`.
    pub fn from_secret_bytes(secret: [u8; 32]) -> (id: Self)
        ensures
            id.secret_key() == secret@,
            id.public_key() == spec_ed25519_public(secret@),
    {
        let public = ed25519_public_key(&secret);
        NodeIdentity { secret, public }
    }

    /// A new random identity.
    pub fn generate() -> (id: Self)
        ensures
            id.public_key() == spec_ed25519_public(id.secret_key()),
    {
        Self::from_secret_bytes(random_secret_key())
    }

    /// The identity stored in a key file's contents: exactly 32 bytes of
    /// secret key.
    pub fn from_key_file(bytes: &[u8]) -> (r: Result<Self, KeyFileError>)
        ensures
            bytes@.len() == KEY_FILE_LEN <==> r is Ok,
            r matches Ok(id) ==> id.secret_key() == bytes@ && id.public_key() == spec_ed25519_public(bytes@),
            r matches Err(e) ==> e == KeyFileError::WrongLength,
    {
        if bytes.len() != KEY_FILE_LEN {
            return Err(KeyFileError::WrongLength);
        }
        let mut secret = [0u8; 32];
        let mut i: usize = 0;
        while i < KEY_FILE_LEN
            invariant
                i <= KEY_FILE_LEN,
                bytes@.len() == KEY_FILE_LEN,
                forall|k: int| 0 <= k < i ==> secret@[k] == bytes@[k],
            decreases KEY_FILE_LEN - i,
        {
            secret[i] = bytes[i];
            i = i + 1;
        }
        assert(secret@ =~= bytes@);
        Ok(Self::from_secret_bytes(secret))
    }

    /// Signs arbitrary bytes.
    pub fn sign(&self, message: &[u8]) -> (signature: [u8; 64])
        ensures
            signature@ == spec_ed25519_sign(self.secret_key(), message@),
    {
        ed25519_sign(&self.secret, message)
    }

    /// The public key bytes.
    pub fn public_key_bytes(&self) -> (public: [u8; 32])
        ensures
            public@ == self.public_key(),
            public@ == spec_ed25519_public(self.secret_key()),
    {
        proof {
            use_type_invariant(self);
        }
        self.public
    }

    /// The secret key bytes, as libp2p needs them.
    pub fn secret_key_bytes(&self) -> (secret: [u8; 32])
        ensures
            secret@ == self.secret_key(),
    {
        self.secret
    }

    /// Whether `signature` is a valid signature of `message` under
    /// `public_key`. A signature that an identity made verifies under that
    /// identity's public key.
    pub fn verify(public_key: &[u8; 32], message: &[u8], signature: &[u8; 64]) -> (valid: bool)
        ensures
            valid == spec_ed25519_verify(public_key@, message@, signature@),
            forall|secret: Seq<u8>|
                secret.len() == 32 && #[trigger] spec_ed25519_public(secret) == public_key@
                    && spec_ed25519_sign(secret, message@) == signature@ ==> valid,
    {
        ed25519_verify(public_key, message, signature)
    }

    /// The Cosmos-compatible address: the bech32 encoding, under `oasyce`, of
    /// the first 20 bytes of the SHA-256 digest of the public key.
    pub fn oasyce_address(&self) -> (address: String)
        ensures
            address@ == spec_bech32("oasyce"@, spec_sha256(self.public_key()).take(ADDRESS_BYTES as int)),
            address@.take(7) == "oasyce1"@,
    {
        let digest = sha256(self.public.as_slice());
        let head = vstd::slice::slice_subrange(digest.as_slice(), 0, ADDRESS_BYTES);
        proof {
            reveal_strlit("oasyce");
            reveal_strlit("oasyce1");
            assert forall|i: int| 0 <= i < "oasyce"@.len() implies ('a' <= #[trigger] "oasyce"@[i] <= 'z') || ('0' <= "oasyce"@[i] <= '9') by {}
            assert("oasyce"@.push('1') =~= "oasyce1"@);
        }
        bech32_encode("oasyce", head)
    }

    /// A short id for display: the hex of the first four bytes of the public
    /// key.
    pub fn short_id(&self) -> (id: String)
        ensures
            id@ == spec_hex(self.public_key().take(4)),
            id@.len() == 8,
    {
        let head = vstd::slice::slice_subrange(self.public.as_slice(), 0, 4);
        encode(head)
    }
}

/// Lowercase hexadecimal rendering of `bytes`, two digits per byte.
pub fn encode(bytes: &[u8]) -> (s: String)
    ensures
        s@ == spec_hex(bytes@),
        s@.len() == 2 * bytes@.len(),
{
    hex_string(bytes)
}

} // verus!
