use ed25519_dalek::Signer;
use fedreg::json::{JsonMember, JsonValue};
use fedreg::registry::{
    ChallengeReq, NodeStatus, RegError, RegisterReq, Registry,
};

fn b64(bytes: &[u8]) -> String {
    base64::Engine::encode(&base64::engine::general_purpose::STANDARD, bytes)
}

fn member(key: &str, val: JsonValue) -> JsonMember {
    JsonMember { key: key.to_string(), val }
}

fn payload(name: &str, host: &str, with_features: bool) -> JsonValue {
    let mut ms = Vec::new();
    ms.push(member("name", JsonValue::Str(name.to_string())));
    ms.push(member("host", JsonValue::Str(host.to_string())));
    ms.push(member("api_base_url", JsonValue::Str(format!("http://{host}/api"))));
    ms.push(member("protocol_version", JsonValue::Str("1".to_string())));
    if with_features {
        let mut f = Vec::new();
        f.push(member("relay", JsonValue::Bool(true)));
        ms.push(member("features", JsonValue::Obj(f)));
    }
    JsonValue::Obj(ms)
}

fn signed_request(
    sk: &ed25519_dalek::SigningKey,
    p: JsonValue,
    p_again: JsonValue,
    nonce: &str,
) -> RegisterReq {
    let canon = fedreg::json::canonical_json_string(p);
    let msg = [canon.as_bytes(), nonce.as_bytes()].concat();
    let sig = sk.sign(&msg);
    RegisterReq {
        payload: p_again,
        nonce: nonce.to_string(),
        signature_b64: b64(&sig.to_bytes()),
        pubkey_b64: b64(&sk.verifying_key().to_bytes()),
    }
}

fn challenged(reg: &mut Registry, sk: &ed25519_dalek::SigningKey, nonce: &str, now: i64) {
    let req = ChallengeReq { pubkey_b64: b64(&sk.verifying_key().to_bytes()) };
    reg.challenge(&req, nonce.to_string(), now).expect("challenge issued");
}

#[test]
fn register_flow_creates_unknown_node_and_consumes_challenge() {
    let sk = ed25519_dalek::SigningKey::from_bytes(&[3u8; 32]);
    let mut reg = Registry::new();
    challenged(&mut reg, &sk, "n-1", 1_000);
    let req = signed_request(&sk, payload("n1", "h1", false), payload("n1", "h1", false), "n-1");
    let r = reg.register(req, Some("192.0.2.7".to_string()), 1_100);
    assert!(r.is_ok());
    assert_eq!(reg.nodes.len(), 1);
    assert_eq!(reg.nodes[0].host, "h1");
    assert_eq!(reg.nodes[0].name, "n1");
    assert_eq!(reg.nodes[0].api_base_url, "http://h1/api");
    assert_eq!(reg.nodes[0].protocol_version, "1");
    assert_eq!(reg.nodes[0].features, "{}");
    assert_eq!(reg.nodes[0].contact_email, "");
    assert_eq!(reg.nodes[0].ip, "192.0.2.7");
    assert_eq!(reg.nodes[0].status, NodeStatus::Unknown);
    assert_eq!(reg.nodes[0].pubkey, sk.verifying_key().to_bytes().to_vec());
    assert_eq!(reg.challenges.len(), 0);
}

#[test]
fn second_register_with_same_nonce_fails() {
    let sk = ed25519_dalek::SigningKey::from_bytes(&[3u8; 32]);
    let mut reg = Registry::new();
    challenged(&mut reg, &sk, "n-1", 1_000);
    let first = signed_request(&sk, payload("n1", "h1", false), payload("n1", "h1", false), "n-1");
    let again = signed_request(&sk, payload("n1", "h1", false), payload("n1", "h1", false), "n-1");
    assert!(reg.register(first, Some("192.0.2.7".to_string()), 1_100).is_ok());
    let r = reg.register(again, Some("192.0.2.7".to_string()), 1_100);
    assert!(matches!(r, Err(RegError::UnknownNonce)));
    assert_eq!(reg.nodes.len(), 1);
}

#[test]
fn reregister_with_different_key_is_a_conflict() {
    let a = ed25519_dalek::SigningKey::from_bytes(&[3u8; 32]);
    let b = ed25519_dalek::SigningKey::from_bytes(&[4u8; 32]);
    let mut reg = Registry::new();
    challenged(&mut reg, &a, "n-1", 1_000);
    let first = signed_request(&a, payload("n1", "h1", false), payload("n1", "h1", false), "n-1");
    assert!(reg.register(first, Some("192.0.2.7".to_string()), 1_100).is_ok());
    challenged(&mut reg, &b, "n-2", 1_200);
    let second = signed_request(&b, payload("n2", "h1", false), payload("n2", "h1", false), "n-2");
    let r = reg.register(second, Some("192.0.2.7".to_string()), 1_300);
    assert!(matches!(r, Err(RegError::HostConflict)));
    assert_eq!(reg.nodes[0].pubkey, a.verifying_key().to_bytes().to_vec());
    assert_eq!(reg.nodes[0].name, "n1");
}

#[test]
fn reregister_with_same_key_replaces_metadata_and_keeps_status() {
    let sk = ed25519_dalek::SigningKey::from_bytes(&[3u8; 32]);
    let mut reg = Registry::new();
    challenged(&mut reg, &sk, "n-1", 1_000);
    let first = signed_request(&sk, payload("n1", "h1", false), payload("n1", "h1", false), "n-1");
    assert!(reg.register(first, Some("192.0.2.7".to_string()), 1_100).is_ok());
    reg.nodes[0].status = NodeStatus::Online;
    reg.nodes[0].last_seen_at = Some(1_150);
    challenged(&mut reg, &sk, "n-2", 1_200);
    let second = signed_request(&sk, payload("n1b", "h1", true), payload("n1b", "h1", true), "n-2");
    let r = reg.register(second, Some("192.0.2.8".to_string()), 1_300);
    assert!(r.is_ok());
    assert_eq!(reg.nodes.len(), 1);
    assert_eq!(reg.nodes[0].name, "n1b");
    assert_eq!(reg.nodes[0].ip, "192.0.2.8");
    assert_eq!(reg.nodes[0].features, "{\"relay\":true}");
    assert_eq!(reg.nodes[0].status, NodeStatus::Online);
    assert_eq!(reg.nodes[0].last_seen_at, Some(1_150));
}

#[test]
fn register_rejects_expired_nonce() {
    let sk = ed25519_dalek::SigningKey::from_bytes(&[3u8; 32]);
    let mut reg = Registry::new();
    challenged(&mut reg, &sk, "n-1", 1_000);
    let req = signed_request(&sk, payload("n1", "h1", false), payload("n1", "h1", false), "n-1");
    let r = reg.register(req, Some("192.0.2.7".to_string()), 1_000 + 301);
    assert!(matches!(r, Err(RegError::ExpiredNonce)));
    assert_eq!(reg.challenges.len(), 1);
}

#[test]
fn register_rejects_key_other_than_challenged() {
    let a = ed25519_dalek::SigningKey::from_bytes(&[3u8; 32]);
    let b = ed25519_dalek::SigningKey::from_bytes(&[4u8; 32]);
    let mut reg = Registry::new();
    challenged(&mut reg, &a, "n-1", 1_000);
    let req = signed_request(&b, payload("n1", "h1", false), payload("n1", "h1", false), "n-1");
    let r = reg.register(req, Some("192.0.2.7".to_string()), 1_100);
    assert!(matches!(r, Err(RegError::PubkeyMismatch)));
}

#[test]
fn register_rejects_bad_signature() {
    let sk = ed25519_dalek::SigningKey::from_bytes(&[3u8; 32]);
    let mut reg = Registry::new();
    challenged(&mut reg, &sk, "n-1", 1_000);
    let mut req =
        signed_request(&sk, payload("n1", "h1", false), payload("n1", "h1", false), "n-1");
    req.payload = payload("tampered", "h1", false);
    let r = reg.register(req, Some("192.0.2.7".to_string()), 1_100);
    assert!(matches!(r, Err(RegError::Unauthorized)));
    assert_eq!(reg.nodes.len(), 0);
    assert_eq!(reg.challenges.len(), 1);
}

#[test]
fn register_rejects_payload_without_name() {
    let sk = ed25519_dalek::SigningKey::from_bytes(&[3u8; 32]);
    let mut reg = Registry::new();
    challenged(&mut reg, &sk, "n-1", 1_000);
    let mut ms = Vec::new();
    ms.push(member("host", JsonValue::Str("h1".to_string())));
    let p = JsonValue::Obj(ms);
    let mut ms2 = Vec::new();
    ms2.push(member("host", JsonValue::Str("h1".to_string())));
    let p2 = JsonValue::Obj(ms2);
    let req = signed_request(&sk, p, p2, "n-1");
    let r = reg.register(req, Some("192.0.2.7".to_string()), 1_100);
    assert!(matches!(r, Err(RegError::MissingName)));
}

#[test]
fn register_fails_when_host_does_not_resolve() {
    let sk = ed25519_dalek::SigningKey::from_bytes(&[3u8; 32]);
    let mut reg = Registry::new();
    challenged(&mut reg, &sk, "n-1", 1_000);
    let req = signed_request(&sk, payload("n1", "h1", false), payload("n1", "h1", false), "n-1");
    let r = reg.register(req, None, 1_100);
    assert!(matches!(r, Err(RegError::DnsFailure)));
    assert_eq!(reg.nodes.len(), 0);
}
