//! Trusted boundary to the cryptographic and encoding crates.
//!
//! Everything the protocol needs from base64, rand and ed25519-dalek is
//! reached through the wrappers below. Their contracts speak of uninterpreted
//! names for the results: base64 decoding and Ed25519 verification are
//! deterministic functions of their inputs, so naming the result is sound;
//! nothing is assumed of the random bytes beyond their count.

use vstd::prelude::*;

verus! {

/// What base64's standard-alphabet decoder returns for a string: the decoded
/// bytes, or nothing when the input is not valid base64.
pub uninterp spec fn b64_decode_spec(s: Seq<char>) -> Option<Seq<u8>>;

/// What base64's URL-safe no-padding encoder returns for a byte string.
pub uninterp spec fn b64url_nopad_spec(b: Seq<u8>) -> Seq<char>;

/// Whether ed25519-dalek accepts these bytes as a verifying key: exactly 32
/// bytes that decompress to a curve point.
pub uninterp spec fn ed25519_valid_pubkey(pk: Seq<u8>) -> bool;

/// Whether ed25519-dalek's `VerifyingKey::verify` accepts `sig` as a
/// signature by `pk` over the UTF-8 bytes of `msg`. Verification is
/// deterministic, so this is a function of the three inputs alone.
pub uninterp spec fn ed25519_verifies(pk: Seq<u8>, sig: Seq<u8>, msg: Seq<char>) -> bool;

/// Outcome of checking a signature: the stages at which the check can stop.
#[derive(Clone, Copy, PartialEq, Eq, Structural)]
pub enum SigCheck {
    /// The signature bytes are not 64 bytes long.
    BadSignature,
    /// The public-key bytes are not a valid Ed25519 verifying key.
    BadKey,
    /// Key and signature are well-formed but the signature does not verify.
    Invalid,
    /// The signature verifies.
    Valid,
}

/// Relies on base64's `Engine::decode` with the `STANDARD` engine: it returns
/// the decoded bytes, or an error iff the input is not valid padded base64.
#[verifier::external_body]
pub fn b64_decode(s: &str) -> (r: Option<Vec<u8>>)
    ensures
        match r {
            Some(b) => b64_decode_spec(s@) == Some(b@),
            None => b64_decode_spec(s@) is None,
        },
{
    base64::Engine::decode(&base64::engine::general_purpose::STANDARD, s).ok()
}

/// Relies on base64's `Engine::encode` with the `URL_SAFE_NO_PAD` engine: the
/// result is a function of the input bytes alone, four characters for each
/// three bytes, with two or three for a trailing one or two and no padding.
#[verifier::external_body]
pub fn b64url_nopad_encode(b: &Vec<u8>) -> (r: String)
    ensures
        r@ == b64url_nopad_spec(b@),
        r@.len() == (if b@.len() % 3 == 0 {
            4 * (b@.len() / 3)
        } else if b@.len() % 3 == 1 {
            4 * (b@.len() / 3) + 2
        } else {
            4 * (b@.len() / 3) + 3
        }),
{
    base64::Engine::encode(&base64::engine::general_purpose::URL_SAFE_NO_PAD, b)
}

/// Relies on rand's `RngCore::fill_bytes` on `thread_rng`: it fills the whole
/// buffer. Nothing is assumed of the values drawn.
#[verifier::external_body]
pub fn random_bytes_24() -> (r: Vec<u8>)
    ensures
        r@.len() == 24,
{
    let mut b = [0u8; 24];
    rand::RngCore::fill_bytes(&mut rand::thread_rng(), &mut b);
    b.to_vec()
}

/// Relies on ed25519-dalek: `Signature::from_slice` fails iff the slice is
/// not 64 bytes; `VerifyingKey::try_from` fails iff the bytes are not a valid
/// verifying key; `VerifyingKey::verify` deterministically accepts or rejects
/// the signature over the message, here the UTF-8 bytes of `msg_a` followed
/// by those of `msg_b`.
#[verifier::external_body]
pub fn ed25519_check(pk: &Vec<u8>, sig: &Vec<u8>, msg_a: &str, msg_b: &str) -> (r: SigCheck)
    ensures
        sig@.len() != 64 ==> r == SigCheck::BadSignature,
        sig@.len() == 64 && !ed25519_valid_pubkey(pk@) ==> r == SigCheck::BadKey,
        sig@.len() == 64 && ed25519_valid_pubkey(pk@) ==> r == (if ed25519_verifies(
            pk@,
            sig@,
            msg_a@ + msg_b@,
        ) {
            SigCheck::Valid
        } else {
            SigCheck::Invalid
        }),
{
    let s = match ed25519_dalek::Signature::from_slice(sig.as_slice()) {
        Ok(s) => s,
        Err(_) => return SigCheck::BadSignature,
    };
    let vk = match ed25519_dalek::VerifyingKey::try_from(pk.as_slice()) {
        Ok(k) => k,
        Err(_) => return SigCheck::BadKey,
    };
    let mut m = msg_a.as_bytes().to_vec();
    m.extend_from_slice(msg_b.as_bytes());
    match ed25519_dalek::Verifier::verify(&vk, m.as_slice(), &s) {
        Ok(()) => SigCheck::Valid,
        Err(_) => SigCheck::Invalid,
    }
}

} // verus!
