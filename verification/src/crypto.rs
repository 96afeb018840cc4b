//! The hash and MAC primitives that the protocols rest on, taken from the
//! `sha2` and `hmac` crates. Their results are named, not defined: the
//! contracts below state only what the crates document.

use vstd::prelude::*;

verus! {

/// The SHA-256 digest of `data`.
pub uninterp spec fn sha256(data: Seq<u8>) -> Seq<u8>;

/// The HMAC-SHA256 tag of `message` under `key`.
pub uninterp spec fn hmac_sha256(key: Seq<u8>, message: Seq<u8>) -> Seq<u8>;

/// Calls `sha2::Sha256::digest` (the one-shot form of `new`, `update`,
/// `finalize`). Trusted: the digest is the named value `sha256(data@)`, and
/// it is 32 bytes long, the output size that `sha2` declares for SHA-256.
#[verifier::external_body]
pub(crate) fn sha256_digest(data: &[u8]) -> (digest: Vec<u8>)
    ensures
        digest@ == sha256(data@),
        digest@.len() == 32,
{
    <sha2::Sha256 as sha2::Digest>::digest(data).to_vec()
}

/// Calls `hmac::Hmac::<sha2::Sha256>::new_from_slice`, `Mac::update` and
/// `Mac::finalize`. Trusted: the tag is the named value
/// `hmac_sha256(key@, message@)`, 32 bytes long. `new_from_slice` of `hmac`
/// 0.12 returns `Ok` for keys of every length (longer keys are hashed,
/// shorter ones padded), so the `expect` never fires.
#[verifier::external_body]
pub(crate) fn hmac_sha256_tag(key: &[u8], message: &[u8]) -> (tag: Vec<u8>)
    ensures
        tag@ == hmac_sha256(key@, message@),
        tag@.len() == 32,
{
    let mut mac = <hmac::Hmac<sha2::Sha256> as hmac::Mac>::new_from_slice(key).expect(
        "HMAC takes keys of any length",
    );
    hmac::Mac::update(&mut mac, message);
    hmac::Mac::finalize(mac).into_bytes().to_vec()
}

} // verus!
