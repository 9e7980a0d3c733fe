use fedreg::registry::{ChallengeReq, RegError, Registry};
use ed25519_dalek::Signer;

#[test]
fn challenge_rejects_empty_pubkey() {
    let mut reg = Registry::new();
    let req = ChallengeReq { pubkey_b64: String::new() };
    let r = reg.challenge(&req, "n-1".to_string(), 1000);
    assert!(matches!(r, Err(RegError::PubkeyRequired)));
}

#[test]
fn challenge_expiry_five_minutes_ahead() {
    let mut reg = Registry::new();
    let req = ChallengeReq { pubkey_b64: "QQ==".to_string() };
    let r = reg.issue_challenge(&req, 1_700_000_000).expect("challenge issued");
    assert!(!r.nonce.is_empty());
    assert_eq!(r.expires_at, 1_700_000_000 + 300);
}

#[test]
fn challenge_rejects_reused_nonce() {
    let mut reg = Registry::new();
    let req = ChallengeReq { pubkey_b64: "QQ==".to_string() };
    assert!(reg.challenge(&req, "same".to_string(), 10).is_ok());
    let r = reg.challenge(&req, "same".to_string(), 20);
    assert!(matches!(r, Err(RegError::DuplicateNonce)));
}

#[test]
fn signature_roundtrip_with_dalek() {
    let sk = ed25519_dalek::SigningKey::from_bytes(&[7u8; 32]);
    let vk = sk.verifying_key();
    let payload = {
        let mut ms = Vec::new();
        ms.push(fedreg::json::JsonMember {
            key: "host".to_string(),
            val: fedreg::json::JsonValue::Str("h1".to_string()),
        });
        fedreg::json::JsonValue::Obj(ms)
    };
    let canon = fedreg::json::canonical_json_string(payload);
    let nonce = "nonce-1";
    let msg = [canon.as_bytes(), nonce.as_bytes()].concat();
    let sig = sk.sign(&msg);
    assert!(ed25519_dalek::Verifier::verify(&vk, &msg, &sig).is_ok());
}
