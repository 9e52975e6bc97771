//! The local browser session's fixed identities: the closed network and
//! the trust root a resident derives from its own subject, and the window
//! its one-session grant is valid for.

use vstd::prelude::*;

use crate::sorted::salted;

verus! {

/// Domain separation for the local browser network's identifier.
pub const NETWORK_DOMAIN: &'static str = "mere.graphshell/local-browser-network/v1";
/// Domain separation for the local browser trust root.
pub const ROOT_DOMAIN: &'static str = "mere.graphshell/local-browser-root/v1";
/// The profile a local browser session speaks.
pub const PROFILE_ID: &'static str = "mere.base";
/// How far before now a local grant's validity starts, for clock skew.
pub const GRANT_SKEW_MS: u64 = 5_000;

/// The BLAKE3 hash of `input`.
pub uninterp spec fn blake3_hash(input: Seq<u8>) -> Seq<u8>;

/// `blake3::hash`: the 32-byte BLAKE3 digest of `input`, a function of the
/// bytes alone. Hashing pieces one after another with `Hasher::update` is
/// the same as hashing their concatenation, as the crate documents.
#[verifier::external_body]
fn blake3_of(input: &[u8]) -> (r: [u8; 32])
    ensures
        r@ == blake3_hash(input@),
{
    *blake3::hash(input).as_bytes()
}

/// The closed local network a resident's browser sessions run on: the
/// BLAKE3 hash of [`NETWORK_DOMAIN`] and the resident's subject.
pub fn local_network(subject: [u8; 32]) -> (r: [u8; 32])
    ensures
        r@ == blake3_hash(vstd::utf8::encode_utf8(NETWORK_DOMAIN@) + subject@),
{
    let input = salted(NETWORK_DOMAIN, subject);
    blake3_of(input.as_slice())
}

/// The trust root a resident's local grants descend from: the BLAKE3 hash
/// of [`ROOT_DOMAIN`] and the resident's subject.
pub fn local_root(subject: [u8; 32]) -> (r: [u8; 32])
    ensures
        r@ == blake3_hash(vstd::utf8::encode_utf8(ROOT_DOMAIN@) + subject@),
{
    let input = salted(ROOT_DOMAIN, subject);
    blake3_of(input.as_slice())
}

/// When a local grant issued at `now_ms` for a session of
/// `session_duration_ms` is valid: from a little before now (saturating at
/// zero) until the session's end (saturating at the clock's maximum).
pub fn grant_window(now_ms: u64, session_duration_ms: u64) -> (r: (u64, u64))
    ensures
        r.0 == if now_ms >= GRANT_SKEW_MS {
            now_ms - GRANT_SKEW_MS
        } else {
            0
        },
        r.1 == if now_ms + session_duration_ms <= u64::MAX {
            (now_ms + session_duration_ms) as u64
        } else {
            u64::MAX
        },
{
    (now_ms.saturating_sub(GRANT_SKEW_MS), now_ms.saturating_add(session_duration_ms))
}

} // verus!
