//! Traces: the atomic unit of the signal substrate.
//!
//! A trace is what an agent leaves behind after interacting with the world:
//! what it was about, how it went, when, and who signed it.

use vstd::prelude::*;
use vstd::string::StringSliceAdditionalSpecFns;
use vstd::utf8::encode_utf8;

use crate::clock::now_stamp;
use crate::crypto::{bytes_to_array64, sha256, spec_ed25519_public, spec_ed25519_sign, spec_ed25519_verify, spec_sha256};
use crate::identity::NodeIdentity;
use crate::text::{compare_bytes, views, Order};

verus! {

/// Outcome of an agent's interaction.
#[derive(Debug, Clone, Copy, PartialEq, Eq, Structural)]
pub enum Outcome {
    Succeeded,
    Failed,
    Partial,
    Timeout,
}

/// Whether an agent followed the method it was asked to follow.
#[derive(Debug, Clone, Copy, PartialEq, Eq, Structural)]
pub enum MethodCompliance {
    Compliant,
    Noncompliant,
    Unknown,
}

impl Outcome {
    /// The outcome's byte in the signed encoding: its position in the
    /// declaration.
    pub open spec fn spec_code(self) -> u8 {
        match self {
            Outcome::Succeeded => 0,
            Outcome::Failed => 1,
            Outcome::Partial => 2,
            Outcome::Timeout => 3,
        }
    }

    /// The outcome's byte in the signed encoding.
    pub fn code(self) -> (b: u8)
        ensures
            b == self.spec_code(),
    {
        match self {
            Outcome::Succeeded => 0,
            Outcome::Failed => 1,
            Outcome::Partial => 2,
            Outcome::Timeout => 3,
        }
    }
}

/// A single trace: the footprint an agent leaves on the substrate.
pub struct Trace {
    /// Content-addressed id: the SHA-256 digest of the signed content
    /// followed by the signature.
    pub id: [u8; 32],
    /// What the trace is about: a capability, resource, tool or any identifier.
    pub about: String,
    /// Structured tags for topic routing and filtering.
    pub tags: Vec<String>,
    pub outcome: Outcome,
    /// Latency in milliseconds (0 if not applicable).
    pub latency_ms: u32,
    /// Quality score 0-100 (0 if not assessed).
    pub quality: u8,
    /// Unix timestamp in milliseconds.
    pub timestamp: u64,
    /// Public key of the signing node.
    pub node_pubkey: [u8; 32],
    /// ed25519 signature over the signed content.
    pub signature: [u8; 64],
}

/// The little-endian bytes of a `u32`.
pub open spec fn le_u32(x: u32) -> Seq<u8> {
    seq![(x % 256) as u8, (x / 256 % 256) as u8, (x / 65536 % 256) as u8, (x / 16777216 % 256) as u8]
}

/// The little-endian bytes of a `u64`.
pub open spec fn le_u64(x: u64) -> Seq<u8> {
    seq![
        (x % 256) as u8,
        (x / 0x100 % 256) as u8,
        (x / 0x10000 % 256) as u8,
        (x / 0x1000000 % 256) as u8,
        (x / 0x100000000 % 256) as u8,
        (x / 0x10000000000 % 256) as u8,
        (x / 0x1000000000000 % 256) as u8,
        (x / 0x100000000000000 % 256) as u8,
    ]
}

/// The tags in the signed encoding: each one's UTF-8 bytes followed by a zero.
pub open spec fn tag_bytes(tags: Seq<Seq<char>>) -> Seq<u8>
    decreases tags.len(),
{
    if tags.len() == 0 {
        seq![]
    } else {
        tag_bytes(tags.drop_last()) + encode_utf8(tags.last()) + seq![0u8]
    }
}

/// The signed content of a trace: the UTF-8 of `about` and a zero, the tags,
/// the outcome byte, the latency (4 bytes, little-endian), the quality, the
/// timestamp (8 bytes, little-endian) and the node's public key.
pub open spec fn spec_signable(
    about: Seq<char>,
    tags: Seq<Seq<char>>,
    outcome: Outcome,
    latency_ms: u32,
    quality: u8,
    timestamp: u64,
    node_pubkey: Seq<u8>,
) -> Seq<u8> {
    encode_utf8(about) + seq![0u8] + tag_bytes(tags) + seq![outcome.spec_code()] + le_u32(latency_ms) + seq![
        quality,
    ] + le_u64(timestamp) + node_pubkey
}

fn push_le_u32(buf: &mut Vec<u8>, x: u32)
    ensures
        final(buf)@ == old(buf)@ + le_u32(x),
{
    buf.push((x % 256) as u8);
    buf.push((x / 256 % 256) as u8);
    buf.push((x / 65536 % 256) as u8);
    buf.push((x / 16777216 % 256) as u8);
    assert(buf@ =~= old(buf)@ + le_u32(x));
}

fn push_le_u64(buf: &mut Vec<u8>, x: u64)
    ensures
        final(buf)@ == old(buf)@ + le_u64(x),
{
    buf.push((x % 256) as u8);
    buf.push((x / 0x100 % 256) as u8);
    buf.push((x / 0x10000 % 256) as u8);
    buf.push((x / 0x1000000 % 256) as u8);
    buf.push((x / 0x100000000 % 256) as u8);
    buf.push((x / 0x10000000000 % 256) as u8);
    buf.push((x / 0x1000000000000 % 256) as u8);
    buf.push((x / 0x100000000000000 % 256) as u8);
    assert(buf@ =~= old(buf)@ + le_u64(x));
}

fn push_bytes(buf: &mut Vec<u8>, bytes: &[u8])
    ensures
        final(buf)@ == old(buf)@ + bytes@,
{
    let mut i: usize = 0;
    while i < bytes.len()
        invariant
            i <= bytes@.len(),
            buf@ == old(buf)@ + bytes@.take(i as int),
        decreases bytes@.len() - i,
    {
        buf.push(bytes[i]);
        i = i + 1;
        assert(buf@ =~= old(buf)@ + bytes@.take(i as int));
    }
    assert(bytes@.take(bytes@.len() as int) =~= bytes@);
}

/// The signed content of a trace.
pub fn signable_bytes(
    about: &str,
    tags: &Vec<String>,
    outcome: Outcome,
    latency_ms: u32,
    quality: u8,
    timestamp: u64,
    node_pubkey: &[u8; 32],
) -> (buf: Vec<u8>)
    ensures
        buf@ == spec_signable(about@, views(tags@), outcome, latency_ms, quality, timestamp, node_pubkey@),
{
    let mut buf: Vec<u8> = Vec::new();
    push_bytes(&mut buf, about.as_bytes());
    buf.push(0);
    let ghost head = buf@;
    let mut i: usize = 0;
    while i < tags.len()
        invariant
            i <= tags@.len(),
            buf@ == head + tag_bytes(views(tags@.take(i as int))),
        decreases tags@.len() - i,
    {
        push_bytes(&mut buf, tags[i].as_str().as_bytes());
        buf.push(0);
        proof {
            let pre = views(tags@.take(i as int));
            let post = views(tags@.take(i + 1));
            assert(post.drop_last() =~= pre);
            assert(post.last() == tags@[i as int]@);
            assert(buf@ =~= head + tag_bytes(post));
        }
        i = i + 1;
    }
    assert(tags@.take(tags@.len() as int) =~= tags@);
    buf.push(outcome.code());
    push_le_u32(&mut buf, latency_ms);
    buf.push(quality);
    push_le_u64(&mut buf, timestamp);
    push_bytes(&mut buf, node_pubkey.as_slice());
    assert(buf@ =~= spec_signable(about@, views(tags@), outcome, latency_ms, quality, timestamp, node_pubkey@));
    buf
}

/// The content-addressed id of signed content and its signature.
fn content_id(signable: &[u8], signature: &[u8; 64]) -> (id: [u8; 32])
    ensures
        id@ == spec_sha256(signable@ + signature@),
{
    let mut content: Vec<u8> = Vec::new();
    push_bytes(&mut content, signable);
    push_bytes(&mut content, signature.as_slice());
    assert(content@ =~= signable@ + signature@);
    sha256(content.as_slice())
}

impl Trace {
    /// The signed content of this trace.
    pub open spec fn signable(self) -> Seq<u8> {
        spec_signable(
            self.about@,
            views(self.tags@),
            self.outcome,
            self.latency_ms,
            self.quality,
            self.timestamp,
            self.node_pubkey@,
        )
    }

    /// The id this trace's content calls for.
    pub open spec fn expected_id(self) -> Seq<u8> {
        spec_sha256(self.signable() + self.signature@)
    }

    /// A trace stamped `timestamp`, signed by `sign_fn` over its signed
    /// content, with its content-addressed id.
    pub fn new_at<F: FnOnce(&[u8]) -> [u8; 64]>(
        about: String,
        tags: Vec<String>,
        outcome: Outcome,
        latency_ms: u32,
        quality: u8,
        node_pubkey: [u8; 32],
        timestamp: u64,
        sign_fn: F,
    ) -> (t: Self)
        requires
            forall|m: &[u8]| #[trigger] sign_fn.requires((m,)),
        ensures
            t.about == about,
            t.tags == tags,
            t.outcome == outcome,
            t.latency_ms == latency_ms,
            t.quality == quality,
            t.timestamp == timestamp,
            t.node_pubkey == node_pubkey,
            exists|m: &[u8]| m@ == t.signable() && #[trigger] sign_fn.ensures((m,), t.signature),
            t.id@ == t.expected_id(),
    {
        let signable = signable_bytes(about.as_str(), &tags, outcome, latency_ms, quality, timestamp, &node_pubkey);
        let message = signable.as_slice();
        let ghost signer = sign_fn;
        let signature = sign_fn(message);
        let id = content_id(message, &signature);
        let t = Trace { id, about, tags, outcome, latency_ms, quality, timestamp, node_pubkey, signature };
        assert(t.signable() == message@);
        assert(signer.ensures((message,), t.signature));
        t
    }

    /// A trace stamped with the current time, signed by `sign_fn` over its
    /// signed content, with its content-addressed id.
    pub fn new<F: FnOnce(&[u8]) -> [u8; 64]>(
        about: String,
        tags: Vec<String>,
        outcome: Outcome,
        latency_ms: u32,
        quality: u8,
        node_pubkey: [u8; 32],
        sign_fn: F,
    ) -> (t: Self)
        requires
            forall|m: &[u8]| #[trigger] sign_fn.requires((m,)),
        ensures
            t.about == about,
            t.tags == tags,
            t.outcome == outcome,
            t.latency_ms == latency_ms,
            t.quality == quality,
            t.node_pubkey == node_pubkey,
            exists|m: &[u8]| m@ == t.signable() && #[trigger] sign_fn.ensures((m,), t.signature),
            t.id@ == t.expected_id(),
    {
        let timestamp = now_stamp();
        Trace::new_at(about, tags, outcome, latency_ms, quality, node_pubkey, timestamp, sign_fn)
    }

    /// Whether the signature is valid for the trace's signed content under
    /// its node's public key.
    pub fn verify(&self) -> (valid: bool)
        ensures
            valid == spec_ed25519_verify(self.node_pubkey@, self.signable(), self.signature@),
            forall|secret: Seq<u8>|
                secret.len() == 32 && #[trigger] spec_ed25519_public(secret) == self.node_pubkey@
                    && spec_ed25519_sign(secret, self.signable()) == self.signature@ ==> valid,
    {
        let signable = signable_bytes(
            self.about.as_str(),
            &self.tags,
            self.outcome,
            self.latency_ms,
            self.quality,
            self.timestamp,
            &self.node_pubkey,
        );
        NodeIdentity::verify(&self.node_pubkey, signable.as_slice(), &self.signature)
    }

    /// Whether the content-addressed id matches the trace's content.
    pub fn verify_id(&self) -> (valid: bool)
        ensures
            valid == (self.id@ == self.expected_id()),
    {
        let mut content = signable_bytes(
            self.about.as_str(),
            &self.tags,
            self.outcome,
            self.latency_ms,
            self.quality,
            self.timestamp,
            &self.node_pubkey,
        );
        push_bytes(&mut content, self.signature.as_slice());
        let expected = sha256(content.as_slice());
        compare_bytes(self.id.as_slice(), expected.as_slice()) == Order::Equal
    }
}

/// A signature read back from storage: exactly 64 bytes.
pub fn signature_from_bytes(bytes: &[u8]) -> (sig: Option<[u8; 64]>)
    ensures
        bytes@.len() == 64 <==> sig is Some,
        sig matches Some(s) ==> s@ == bytes@,
{
    if bytes.len() == 64 {
        Some(bytes_to_array64(bytes))
    } else {
        None
    }
}

} // verus!
