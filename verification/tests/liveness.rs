use ed25519_dalek::Signer;
use fedreg::registry::{
    HeartbeatReq, NodeRecord, NodeStatus, ProbeOutcome, RegError, Registry,
};

fn node(host: &str, pubkey: Vec<u8>) -> NodeRecord {
    NodeRecord {
        host: host.to_string(),
        name: "n1".to_string(),
        api_base_url: "http://h1/api".to_string(),
        protocol_version: "1".to_string(),
        features: "{}".to_string(),
        contact_email: String::new(),
        pubkey,
        ip: "192.0.2.1".to_string(),
        status: NodeStatus::Unknown,
        last_seen_at: None,
        last_latency_ms: None,
        country_code: None,
        country_name: None,
    }
}

fn b64(bytes: &[u8]) -> String {
    base64::Engine::encode(&base64::engine::general_purpose::STANDARD, bytes)
}

#[test]
fn heartbeat_valid_signature_goes_online() {
    let sk = ed25519_dalek::SigningKey::from_bytes(&[9u8; 32]);
    let vk = sk.verifying_key();
    let mut reg = Registry::new();
    reg.nodes.push(node("h1", vk.to_bytes().to_vec()));

    let msg = [b"h1".as_slice(), b"salt-1".as_slice()].concat();
    let sig = sk.sign(&msg);
    let req = HeartbeatReq {
        host: "h1".to_string(),
        nonce: "salt-1".to_string(),
        signature_b64: b64(&sig.to_bytes()),
        pubkey_b64: b64(&vk.to_bytes()),
    };
    let r = reg.heartbeat(&req, 5_000);
    assert!(r.is_ok());
    assert_eq!(reg.nodes[0].status, NodeStatus::Online);
    assert_eq!(reg.nodes[0].last_seen_at, Some(5_000));
}

#[test]
fn heartbeat_invalid_signature_changes_nothing() {
    let sk = ed25519_dalek::SigningKey::from_bytes(&[9u8; 32]);
    let vk = sk.verifying_key();
    let mut reg = Registry::new();
    reg.nodes.push(node("h1", vk.to_bytes().to_vec()));

    let other_msg = [b"h2".as_slice(), b"salt-1".as_slice()].concat();
    let sig = sk.sign(&other_msg);
    let req = HeartbeatReq {
        host: "h1".to_string(),
        nonce: "salt-1".to_string(),
        signature_b64: b64(&sig.to_bytes()),
        pubkey_b64: b64(&vk.to_bytes()),
    };
    let r = reg.heartbeat(&req, 5_000);
    assert!(matches!(r, Err(RegError::Unauthorized)));
    assert_eq!(reg.nodes[0].status, NodeStatus::Unknown);
    assert_eq!(reg.nodes[0].last_seen_at, None);
}

#[test]
fn heartbeat_rejects_key_not_bound_to_host() {
    let sk = ed25519_dalek::SigningKey::from_bytes(&[9u8; 32]);
    let other = ed25519_dalek::SigningKey::from_bytes(&[10u8; 32]);
    let vk = other.verifying_key();
    let mut reg = Registry::new();
    reg.nodes.push(node("h1", sk.verifying_key().to_bytes().to_vec()));

    let msg = [b"h1".as_slice(), b"x".as_slice()].concat();
    let sig = other.sign(&msg);
    let req = HeartbeatReq {
        host: "h1".to_string(),
        nonce: "x".to_string(),
        signature_b64: b64(&sig.to_bytes()),
        pubkey_b64: b64(&vk.to_bytes()),
    };
    let r = reg.heartbeat(&req, 5_000);
    assert!(matches!(r, Err(RegError::HostConflict)));
    assert_eq!(reg.nodes[0].status, NodeStatus::Unknown);
}

#[test]
fn heartbeat_rejects_unknown_host() {
    let sk = ed25519_dalek::SigningKey::from_bytes(&[9u8; 32]);
    let vk = sk.verifying_key();
    let mut reg = Registry::new();
    let msg = [b"h1".as_slice(), b"x".as_slice()].concat();
    let sig = sk.sign(&msg);
    let req = HeartbeatReq {
        host: "h1".to_string(),
        nonce: "x".to_string(),
        signature_b64: b64(&sig.to_bytes()),
        pubkey_b64: b64(&vk.to_bytes()),
    };
    assert!(matches!(reg.heartbeat(&req, 1), Err(RegError::UnknownHost)));
}

#[test]
fn probe_success_sets_online_and_latency() {
    let mut reg = Registry::new();
    reg.nodes.push(node("h1", vec![1, 2, 3]));
    reg.apply_probe(
        &"h1".to_string(),
        ProbeOutcome::Up(42),
        Some("DE".to_string()),
        Some("Germany".to_string()),
        700,
    );
    assert_eq!(reg.nodes[0].status, NodeStatus::Online);
    assert_eq!(reg.nodes[0].last_latency_ms, Some(42));
    assert_eq!(reg.nodes[0].last_seen_at, Some(700));
    assert_eq!(reg.nodes[0].country_code.as_deref(), Some("DE"));
    assert_eq!(reg.nodes[0].country_name.as_deref(), Some("Germany"));
}

#[test]
fn probe_failure_goes_offline_but_keeps_last_seen() {
    let mut reg = Registry::new();
    let mut n = node("h1", vec![1]);
    n.status = NodeStatus::Online;
    n.last_seen_at = Some(600);
    n.last_latency_ms = Some(10);
    reg.nodes.push(n);
    reg.apply_probe(&"h1".to_string(), ProbeOutcome::Down, None, None, 900);
    assert_eq!(reg.nodes[0].status, NodeStatus::Offline);
    assert_eq!(reg.nodes[0].last_latency_ms, None);
    assert_eq!(reg.nodes[0].last_seen_at, Some(600));
}

#[test]
fn failed_geo_lookup_keeps_stored_geography() {
    let mut reg = Registry::new();
    let mut n = node("h1", vec![1]);
    n.country_code = Some("FR".to_string());
    n.country_name = Some("France".to_string());
    reg.nodes.push(n);
    reg.apply_probe(&"h1".to_string(), ProbeOutcome::Up(5), None, None, 1_000);
    assert_eq!(reg.nodes[0].country_code.as_deref(), Some("FR"));
    assert_eq!(reg.nodes[0].country_name.as_deref(), Some("France"));
}

#[test]
fn probe_of_unknown_host_changes_nothing() {
    let mut reg = Registry::new();
    reg.nodes.push(node("h1", vec![1]));
    reg.apply_probe(&"h2".to_string(), ProbeOutcome::Up(5), None, None, 1_000);
    assert_eq!(reg.nodes[0].status, NodeStatus::Unknown);
    assert_eq!(reg.nodes.len(), 1);
}
