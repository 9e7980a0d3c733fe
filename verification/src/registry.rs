//! The registration protocol: challenges bind a nonce to a claimed public
//! key for five minutes; a registration redeems an unexpired challenge with
//! a signature over the canonical payload text followed by the nonce.

use vstd::prelude::*;
use crate::crypto::{
    b64_decode, b64_decode_spec, b64url_nopad_encode, b64url_nopad_spec, ed25519_check,
    ed25519_valid_pubkey, ed25519_verifies, random_bytes_24, SigCheck,
};
use crate::json::{
    canonical_json_with_member, get_member, get_str, get_str_field, lex_le, lex_le_exec, ser,
    JsonValue,
};

verus! {

/// Request for a fresh challenge: the caller's claimed base64 public key.
pub struct ChallengeReq {
    pub pubkey_b64: String,
}

/// An issued challenge: the nonce to sign and when it stops being usable,
/// as seconds since the Unix epoch.
pub struct ChallengeRes {
    pub nonce: String,
    pub expires_at: i64,
}

/// A liveness report: the signature is taken over the host name followed by
/// the request's nonce.
pub struct HeartbeatReq {
    pub host: String,
    pub nonce: String,
    pub signature_b64: String,
    pub pubkey_b64: String,
}

/// A registration: the signature is taken over the canonical text of
/// `payload` followed by `nonce`.
pub struct RegisterReq {
    pub payload: crate::json::JsonValue,
    pub nonce: String,
    pub signature_b64: String,
    pub pubkey_b64: String,
}

/// Why a protocol request was refused.
#[derive(PartialEq, Eq, Structural, Clone, Copy, Debug)]
pub enum RegError {
    /// A challenge was asked for without a public key.
    PubkeyRequired,
    /// The freshly drawn nonce collides with a stored one.
    DuplicateNonce,
    /// No stored challenge carries the request's nonce.
    UnknownNonce,
    /// The challenge bound to the nonce has expired.
    ExpiredNonce,
    /// The challenge was issued for a different public key.
    PubkeyMismatch,
    /// A base64 field does not decode.
    InvalidBase64,
    /// The signature bytes are not a valid Ed25519 signature encoding.
    InvalidSignature,
    /// The public-key bytes are not a valid Ed25519 verifying key.
    InvalidPubkey,
    /// The signature does not verify under the given key.
    Unauthorized,
    /// No node is registered under this host.
    UnknownHost,
    /// The host is already bound to a different public key.
    HostConflict,
    /// The payload lacks a string `name`.
    MissingName,
    /// The payload lacks a string `host`.
    MissingHost,
    /// The payload lacks a string `api_base_url`.
    MissingApiBaseUrl,
    /// The payload lacks a string `protocol_version`.
    MissingProtocolVersion,
    /// The host did not resolve to an address.
    DnsFailure,
}

/// The key of the payload's display name.
pub open spec fn key_name() -> Seq<char> {
    seq!['n', 'a', 'm', 'e']
}

/// The key of the payload's host, the node's identity.
pub open spec fn key_host() -> Seq<char> {
    seq!['h', 'o', 's', 't']
}

/// The key of the payload's API base URL.
pub open spec fn key_api() -> Seq<char> {
    seq!['a', 'p', 'i', '_', 'b', 'a', 's', 'e', '_', 'u', 'r', 'l']
}

/// The key of the payload's protocol version.
pub open spec fn key_proto() -> Seq<char> {
    seq!['p', 'r', 'o', 't', 'o', 'c', 'o', 'l', '_', 'v', 'e', 'r', 's', 'i', 'o', 'n']
}

/// The key of the payload's feature blob.
pub open spec fn key_features() -> Seq<char> {
    seq!['f', 'e', 'a', 't', 'u', 'r', 'e', 's']
}

/// The key of the payload's contact address.
pub open spec fn key_email() -> Seq<char> {
    seq!['c', 'o', 'n', 't', 'a', 'c', 't', '_', 'e', 'm', 'a', 'i', 'l']
}

/// What a registration stores for the feature blob: its canonical text, or
/// an empty object's when the payload has none.
pub open spec fn features_text(p: JsonValue) -> Seq<char> {
    match get_member(p, key_features()) {
        Some(f) => ser(f),
        None => seq!['{', '}'],
    }
}

/// What a registration stores for the contact address: the payload's, or
/// empty when it has none.
pub open spec fn email_text(p: JsonValue) -> Seq<char> {
    match get_str(p, key_email()) {
        Some(e) => e@,
        None => Seq::empty(),
    }
}

/// The position of the stored challenge carrying this nonce.
pub open spec fn nonce_idx(cs: Seq<ChallengeRecord>, nonce: Seq<char>) -> int {
    choose|i: int| 0 <= i < cs.len() && cs[i].nonce@ == nonce
}

/// Why a registration is refused, in the order the checks are made: the
/// nonce must name a stored, unexpired challenge issued for the request's
/// key; signature and key must decode and the signature must verify over the
/// canonical payload text followed by the nonce; the four required fields
/// must be strings; the host must have resolved; and the host must not
/// already be bound to a different key.
pub open spec fn register_error(
    cs: Seq<ChallengeRecord>,
    ns: Seq<NodeRecord>,
    req: RegisterReq,
    ip: Option<String>,
    now: i64,
) -> Option<RegError> {
    if !has_nonce(cs, req.nonce@) {
        Some(RegError::UnknownNonce)
    } else if cs[nonce_idx(cs, req.nonce@)].expires_at < now {
        Some(RegError::ExpiredNonce)
    } else if cs[nonce_idx(cs, req.nonce@)].pubkey_b64@ != req.pubkey_b64@ {
        Some(RegError::PubkeyMismatch)
    } else if b64_decode_spec(req.signature_b64@) is None {
        Some(RegError::InvalidBase64)
    } else if b64_decode_spec(req.signature_b64@)->0.len() != 64 {
        Some(RegError::InvalidSignature)
    } else if b64_decode_spec(req.pubkey_b64@) is None {
        Some(RegError::InvalidBase64)
    } else if !ed25519_valid_pubkey(b64_decode_spec(req.pubkey_b64@)->0) {
        Some(RegError::InvalidPubkey)
    } else if !ed25519_verifies(
        b64_decode_spec(req.pubkey_b64@)->0,
        b64_decode_spec(req.signature_b64@)->0,
        ser(req.payload) + req.nonce@,
    ) {
        Some(RegError::Unauthorized)
    } else if get_str(req.payload, key_name()) is None {
        Some(RegError::MissingName)
    } else if get_str(req.payload, key_host()) is None {
        Some(RegError::MissingHost)
    } else if get_str(req.payload, key_api()) is None {
        Some(RegError::MissingApiBaseUrl)
    } else if get_str(req.payload, key_proto()) is None {
        Some(RegError::MissingProtocolVersion)
    } else if ip is None {
        Some(RegError::DnsFailure)
    } else if has_host(ns, get_str(req.payload, key_host())->0@) && ns[host_idx(
        ns,
        get_str(req.payload, key_host())->0@,
    )].pubkey@ != b64_decode_spec(req.pubkey_b64@)->0 {
        Some(RegError::HostConflict)
    } else {
        None
    }
}

/// What a successful registration leaves in a node row: the self-reported
/// fields and the resolved address replaced from the request, the key
/// binding set to the decoded key, and the reconciler-maintained fields
/// kept from the previous row or defaulted on a fresh one.
pub open spec fn registered_node(
    n: NodeRecord,
    req: RegisterReq,
    ip: String,
    prev: Option<NodeRecord>,
) -> bool {
    &&& n.host@ == get_str(req.payload, key_host())->0@
    &&& n.name@ == get_str(req.payload, key_name())->0@
    &&& n.api_base_url@ == get_str(req.payload, key_api())->0@
    &&& n.protocol_version@ == get_str(req.payload, key_proto())->0@
    &&& n.features@ == features_text(req.payload)
    &&& n.contact_email@ == email_text(req.payload)
    &&& n.pubkey@ == b64_decode_spec(req.pubkey_b64@)->0
    &&& n.ip@ == ip@
    &&& match prev {
        Some(p) => n.status == p.status && n.last_seen_at == p.last_seen_at
            && n.last_latency_ms == p.last_latency_ms && n.country_code == p.country_code
            && n.country_name == p.country_name,
        None => n.status == NodeStatus::Unknown && n.last_seen_at is None
            && n.last_latency_ms is None && n.country_code is None && n.country_name is None,
    }
}

/// Observed health of a node.
#[derive(PartialEq, Eq, Structural, Clone, Copy, Debug)]
pub enum NodeStatus {
    Unknown,
    Online,
    Offline,
}

/// What one health probe of a node came back with.
#[derive(PartialEq, Eq, Structural, Clone, Copy, Debug)]
pub enum ProbeOutcome {
    /// The health endpoint answered with success; the round trip in
    /// milliseconds.
    Up(u32),
    /// The probe failed or answered without success.
    Down,
}

/// A registered node: the host is the identity, the public key its
/// trust-on-first-use binding; the rest is self-reported metadata and
/// reconciler-maintained observations.
pub struct NodeRecord {
    pub host: String,
    pub name: String,
    pub api_base_url: String,
    pub protocol_version: String,
    /// Canonical JSON text of the self-reported feature blob.
    pub features: String,
    pub contact_email: String,
    pub pubkey: Vec<u8>,
    pub ip: String,
    pub status: NodeStatus,
    pub last_seen_at: Option<i64>,
    pub last_latency_ms: Option<u32>,
    pub country_code: Option<String>,
    pub country_name: Option<String>,
}

/// Some node is registered under this host.
pub open spec fn has_host(ns: Seq<NodeRecord>, host: Seq<char>) -> bool {
    exists|i: int| 0 <= i < ns.len() && ns[i].host@ == host
}

/// The position of the node registered under this host.
pub open spec fn host_idx(ns: Seq<NodeRecord>, host: Seq<char>) -> int {
    choose|i: int| 0 <= i < ns.len() && ns[i].host@ == host
}

/// Why a heartbeat is refused, in the order the checks are made: signature
/// and key must decode, the host must be registered, the request's key must
/// equal the stored binding, and the signature over the host followed by the
/// nonce must verify under it.
pub open spec fn heartbeat_error(ns: Seq<NodeRecord>, req: HeartbeatReq) -> Option<RegError> {
    if b64_decode_spec(req.signature_b64@) is None {
        Some(RegError::InvalidBase64)
    } else if b64_decode_spec(req.signature_b64@)->0.len() != 64 {
        Some(RegError::InvalidSignature)
    } else if b64_decode_spec(req.pubkey_b64@) is None {
        Some(RegError::InvalidBase64)
    } else if !ed25519_valid_pubkey(b64_decode_spec(req.pubkey_b64@)->0) {
        Some(RegError::InvalidPubkey)
    } else if !has_host(ns, req.host@) {
        Some(RegError::UnknownHost)
    } else if ns[host_idx(ns, req.host@)].pubkey@ != b64_decode_spec(req.pubkey_b64@)->0 {
        Some(RegError::HostConflict)
    } else if !ed25519_verifies(
        b64_decode_spec(req.pubkey_b64@)->0,
        b64_decode_spec(req.signature_b64@)->0,
        req.host@ + req.nonce@,
    ) {
        Some(RegError::Unauthorized)
    } else {
        None
    }
}

/// A stored challenge row: a nonce bound to the key that asked for it.
pub struct ChallengeRecord {
    pub nonce: String,
    pub pubkey_b64: String,
    pub expires_at: i64,
}

/// How long a challenge stays usable, in seconds.
pub const CHALLENGE_TTL_SECS: i64 = 300;

/// The registry store: the challenge table and the node table.
pub struct Registry {
    pub challenges: Vec<ChallengeRecord>,
    pub nodes: Vec<NodeRecord>,
}

/// Some stored challenge carries this nonce.
pub open spec fn has_nonce(cs: Seq<ChallengeRecord>, nonce: Seq<char>) -> bool {
    exists|i: int| 0 <= i < cs.len() && cs[i].nonce@ == nonce
}

impl Registry {
    /// Nonces identify at most one stored challenge, hosts at most one
    /// node.
    pub open spec fn wf(self) -> bool {
        &&& forall|i: int, j: int|
            0 <= i < j < self.challenges@.len() ==> self.challenges@[i].nonce@
                != self.challenges@[j].nonce@
        &&& forall|i: int, j: int|
            0 <= i < j < self.nodes@.len() ==> self.nodes@[i].host@ != self.nodes@[j].host@
    }

    /// An empty registry.
    pub fn new() -> (r: Registry)
        ensures
            r.wf(),
            r.challenges@.len() == 0,
            r.nodes@.len() == 0,
    {
        Registry { challenges: Vec::new(), nodes: Vec::new() }
    }

    /// The position of the node registered under this host, if any.
    fn find_host(&self, host: &String) -> (r: Option<usize>)
        requires
            self.wf(),
        ensures
            match r {
                Some(i) => i < self.nodes@.len() && self.nodes@[i as int].host@ == host@
                    && has_host(self.nodes@, host@) && host_idx(self.nodes@, host@) == i as int,
                None => !has_host(self.nodes@, host@),
            },
    {
        let mut i: usize = 0;
        while i < self.nodes.len()
            invariant
                self.wf(),
                i <= self.nodes@.len(),
                forall|j: int| 0 <= j < i ==> self.nodes@[j].host@ != host@,
            decreases self.nodes@.len() - i,
        {
            if self.nodes[i].host == *host {
                proof {
                    assert(has_host(self.nodes@, host@));
                    let k = host_idx(self.nodes@, host@);
                    assert(self.nodes@[k].host@ == host@);
                    assert(k == i as int);
                }
                return Some(i);
            }
            i = i + 1;
        }
        proof {
            if has_host(self.nodes@, host@) {
                let k = host_idx(self.nodes@, host@);
                assert(self.nodes@[k].host@ == host@);
            }
        }
        None
    }

    /// The position of the stored challenge carrying this nonce, if any.
    fn find_nonce(&self, nonce: &String) -> (r: Option<usize>)
        requires
            self.wf(),
        ensures
            match r {
                Some(i) => i < self.challenges@.len() && self.challenges@[i as int].nonce@
                    == nonce@ && has_nonce(self.challenges@, nonce@) && nonce_idx(
                    self.challenges@,
                    nonce@,
                ) == i as int,
                None => !has_nonce(self.challenges@, nonce@),
            },
    {
        let mut i: usize = 0;
        while i < self.challenges.len()
            invariant
                self.wf(),
                i <= self.challenges@.len(),
                forall|j: int| 0 <= j < i ==> self.challenges@[j].nonce@ != nonce@,
            decreases self.challenges@.len() - i,
        {
            if self.challenges[i].nonce == *nonce {
                proof {
                    assert(has_nonce(self.challenges@, nonce@));
                    let k = nonce_idx(self.challenges@, nonce@);
                    assert(self.challenges@[k].nonce@ == nonce@);
                    assert(k == i as int);
                }
                return Some(i);
            }
            i = i + 1;
        }
        proof {
            if has_nonce(self.challenges@, nonce@) {
                let k = nonce_idx(self.challenges@, nonce@);
                assert(self.challenges@[k].nonce@ == nonce@);
            }
        }
        None
    }

    /// Redeem a challenge and register a node. Every failed check returns
    /// the cascade's error and leaves the registry unchanged. On success the
    /// consumed challenge is deleted, and the node row keyed by the
    /// payload's host is inserted or overwritten: metadata, address and key
    /// from the request, observations kept or defaulted.
    #[verifier::rlimit(100)]
    pub fn register(&mut self, req: RegisterReq, ip: Option<String>, now: i64) -> (r: Result<
        (),
        RegError,
    >)
        requires
            (*old(self)).wf(),
            req.payload.wf(),
        ensures
            (*final(self)).wf(),
            register_error((*old(self)).challenges@, (*old(self)).nodes@, req, ip, now) matches Some(
                e,
            ) ==> r == Result::<(), RegError>::Err(e) && *final(self) == *old(self),
            register_error((*old(self)).challenges@, (*old(self)).nodes@, req, ip, now) is None
                ==> {
                let hostv = get_str(req.payload, key_host())->0@;
                &&& r == Result::<(), RegError>::Ok(())
                &&& (*final(self)).challenges@ == (*old(self)).challenges@.remove(
                    nonce_idx((*old(self)).challenges@, req.nonce@),
                )
                &&& if has_host((*old(self)).nodes@, hostv) {
                    let i = host_idx((*old(self)).nodes@, hostv);
                    &&& (*final(self)).nodes@.len() == (*old(self)).nodes@.len()
                    &&& registered_node(
                        (*final(self)).nodes@[i],
                        req,
                        ip->0,
                        Some((*old(self)).nodes@[i]),
                    )
                    &&& forall|j: int|
                        0 <= j < (*old(self)).nodes@.len() && j != i ==> (*final(self)).nodes@[j]
                            == (*old(self)).nodes@[j]
                } else {
                    &&& (*final(self)).nodes@.len() == (*old(self)).nodes@.len() + 1
                    &&& (*final(self)).nodes@.subrange(0, (*old(self)).nodes@.len() as int)
                        == (*old(self)).nodes@
                    &&& registered_node((*final(self)).nodes@.last(), req, ip->0, None)
                }
            },
    {
        let RegisterReq { payload, nonce, signature_b64, pubkey_b64 } = req;
        proof {
            reveal_strlit("name");
            reveal_strlit("host");
            reveal_strlit("api_base_url");
            reveal_strlit("protocol_version");
            reveal_strlit("features");
            reveal_strlit("contact_email");
            assert("name"@ =~= key_name());
            assert("host"@ =~= key_host());
            assert("api_base_url"@ =~= key_api());
            assert("protocol_version"@ =~= key_proto());
            assert("features"@ =~= key_features());
            assert("contact_email"@ =~= key_email());
        }
        let ci = match self.find_nonce(&nonce) {
            Some(i) => i,
            None => { return Err(RegError::UnknownNonce); },
        };
        if self.challenges[ci].expires_at < now {
            return Err(RegError::ExpiredNonce);
        }
        if !(self.challenges[ci].pubkey_b64 == pubkey_b64) {
            return Err(RegError::PubkeyMismatch);
        }
        let sig = match b64_decode(signature_b64.as_str()) {
            Some(b) => b,
            None => { return Err(RegError::InvalidBase64); },
        };
        if sig.len() != 64 {
            return Err(RegError::InvalidSignature);
        }
        let pk = match b64_decode(pubkey_b64.as_str()) {
            Some(b) => b,
            None => { return Err(RegError::InvalidBase64); },
        };
        let name_o = get_str_field(&payload, "name");
        let host_o = get_str_field(&payload, "host");
        let api_o = get_str_field(&payload, "api_base_url");
        let proto_o = get_str_field(&payload, "protocol_version");
        let email_o = get_str_field(&payload, "contact_email");
        let (canon, feat_o) = canonical_json_with_member(payload, "features");
        let chk = ed25519_check(&pk, &sig, canon.as_str(), nonce.as_str());
        if chk == SigCheck::BadSignature {
            return Err(RegError::InvalidSignature);
        }
        if chk == SigCheck::BadKey {
            return Err(RegError::InvalidPubkey);
        }
        if chk == SigCheck::Invalid {
            return Err(RegError::Unauthorized);
        }
        let name = match name_o {
            Some(s) => s,
            None => { return Err(RegError::MissingName); },
        };
        let host = match host_o {
            Some(s) => s,
            None => { return Err(RegError::MissingHost); },
        };
        let api = match api_o {
            Some(s) => s,
            None => { return Err(RegError::MissingApiBaseUrl); },
        };
        let proto = match proto_o {
            Some(s) => s,
            None => { return Err(RegError::MissingProtocolVersion); },
        };
        let email = match email_o {
            Some(s) => s,
            None => String::new(),
        };
        let ftxt = match feat_o {
            Some(t) => t,
            None => {
                let mut t = String::new();
                proof {
                    reveal_strlit("{}");
                    assert("{}"@ =~= seq!['{', '}']);
                }
                t.append("{}");
                t
            },
        };
        let ipv = match ip {
            Some(s) => s,
            None => { return Err(RegError::DnsFailure); },
        };
        let ghost cs0 = self.challenges@;
        let ghost ns0 = self.nodes@;
        match self.find_host(&host) {
            Some(i) => {
                if !bytes_eq(&self.nodes[i].pubkey, &pk) {
                    return Err(RegError::HostConflict);
                }
                let mut n = self.nodes.remove(i);
                n.host = host;
                n.name = name;
                n.api_base_url = api;
                n.protocol_version = proto;
                n.features = ftxt;
                n.contact_email = email;
                n.pubkey = pk;
                n.ip = ipv;
                self.nodes.insert(i, n);
                proof {
                    assert(self.nodes@ =~= ns0.update(i as int, self.nodes@[i as int]));
                    assert forall|p: int, q: int| 0 <= p < q < self.nodes@.len() implies self.nodes@[
                        p
                    ].host@ != self.nodes@[q].host@ by {
                        assert(self.nodes@[p].host@ == ns0[p].host@);
                        assert(self.nodes@[q].host@ == ns0[q].host@);
                    }
                }
            },
            None => {
                self.nodes.push(
                    NodeRecord {
                        host,
                        name,
                        api_base_url: api,
                        protocol_version: proto,
                        features: ftxt,
                        contact_email: email,
                        pubkey: pk,
                        ip: ipv,
                        status: NodeStatus::Unknown,
                        last_seen_at: None,
                        last_latency_ms: None,
                        country_code: None,
                        country_name: None,
                    },
                );
                proof {
                    assert(self.nodes@.subrange(0, ns0.len() as int) =~= ns0);
                    assert forall|p: int, q: int| 0 <= p < q < self.nodes@.len() implies self.nodes@[
                        p
                    ].host@ != self.nodes@[q].host@ by {
                        if q < ns0.len() {
                            assert(self.nodes@[p] == ns0[p] && self.nodes@[q] == ns0[q]);
                        } else {
                            assert(self.nodes@[p] == ns0[p]);
                        }
                    }
                }
            },
        }
        self.challenges.remove(ci);
        proof {
            assert(self.challenges@ == cs0.remove(ci as int));
            assert(nonce_idx(cs0, nonce@) == ci as int);
            assert forall|p: int, q: int| 0 <= p < q < self.challenges@.len() implies self.challenges@[
                p
            ].nonce@ != self.challenges@[q].nonce@ by {
                let c2 = cs0.remove(ci as int);
                if p < ci {
                    assert(c2[p] == cs0[p]);
                } else {
                    assert(c2[p] == cs0[p + 1]);
                }
                if q < ci {
                    assert(c2[q] == cs0[q]);
                } else {
                    assert(c2[q] == cs0[q + 1]);
                }
            }
        }
        Ok(())
    }

    /// Report a node alive: with well-formed encodings, a registered host,
    /// the stored key binding, and a signature over the host followed by the
    /// nonce that verifies under it, the node goes online and its last-seen
    /// time advances to now; any failed check leaves the registry unchanged
    /// and names the reason.
    pub fn heartbeat(&mut self, req: &HeartbeatReq, now: i64) -> (r: Result<(), RegError>)
        requires
            (*old(self)).wf(),
        ensures
            (*final(self)).wf(),
            heartbeat_error((*old(self)).nodes@, *req) matches Some(e) ==> r
                == Result::<(), RegError>::Err(e) && *final(self) == *old(self),
            heartbeat_error((*old(self)).nodes@, *req) is None ==> {
                let i = host_idx((*old(self)).nodes@, req.host@);
                &&& r == Result::<(), RegError>::Ok(())
                &&& (*final(self)).challenges@ == (*old(self)).challenges@
                &&& (*final(self)).nodes@.len() == (*old(self)).nodes@.len()
                &&& (*final(self)).nodes@[i] == (NodeRecord {
                    status: NodeStatus::Online,
                    last_seen_at: Some(now),
                    ..(*old(self)).nodes@[i]
                })
                &&& forall|j: int|
                    0 <= j < (*old(self)).nodes@.len() && j != i ==> (*final(self)).nodes@[j]
                        == (*old(self)).nodes@[j]
            },
    {
        let sig = match b64_decode(req.signature_b64.as_str()) {
            Some(b) => b,
            None => { return Err(RegError::InvalidBase64); },
        };
        if sig.len() != 64 {
            return Err(RegError::InvalidSignature);
        }
        let pk = match b64_decode(req.pubkey_b64.as_str()) {
            Some(b) => b,
            None => { return Err(RegError::InvalidBase64); },
        };
        let chk = ed25519_check(&pk, &sig, req.host.as_str(), req.nonce.as_str());
        if chk == SigCheck::BadKey {
            return Err(RegError::InvalidPubkey);
        }
        if chk == SigCheck::BadSignature {
            return Err(RegError::InvalidSignature);
        }
        let i = match self.find_host(&req.host) {
            Some(i) => i,
            None => { return Err(RegError::UnknownHost); },
        };
        if !bytes_eq(&self.nodes[i].pubkey, &pk) {
            return Err(RegError::HostConflict);
        }
        if chk == SigCheck::Invalid {
            return Err(RegError::Unauthorized);
        }
        let ghost ns0 = self.nodes@;
        let mut n = self.nodes.remove(i);
        n.status = NodeStatus::Online;
        n.last_seen_at = Some(now);
        self.nodes.insert(i, n);
        proof {
            assert(self.nodes@ =~= ns0.update(
                i as int,
                NodeRecord {
                    status: NodeStatus::Online,
                    last_seen_at: Some(now),
                    ..ns0[i as int]
                },
            ));
            assert forall|p: int, q: int| 0 <= p < q < self.nodes@.len() implies self.nodes@[
                p
            ].host@ != self.nodes@[q].host@ by {
                assert(self.nodes@[p].host@ == ns0[p].host@);
                assert(self.nodes@[q].host@ == ns0[q].host@);
            }
        }
        Ok(())
    }

    /// Record one reconciler observation for a host. A successful probe puts
    /// the node online with its measured latency and advances the last-seen
    /// time; a failed probe puts it offline and clears the latency but never
    /// rewinds the last-seen time. Geolocation values overwrite only when
    /// the lookup produced them; a failed lookup leaves the stored ones
    /// untouched. An unknown host changes nothing.
    pub fn apply_probe(
        &mut self,
        host: &String,
        probe: ProbeOutcome,
        geo_cc: Option<String>,
        geo_cn: Option<String>,
        now: i64,
    )
        requires
            (*old(self)).wf(),
        ensures
            (*final(self)).wf(),
            (*final(self)).challenges@ == (*old(self)).challenges@,
            !has_host((*old(self)).nodes@, host@) ==> *final(self) == *old(self),
            has_host((*old(self)).nodes@, host@) ==> {
                let i = host_idx((*old(self)).nodes@, host@);
                let prev = (*old(self)).nodes@[i];
                &&& (*final(self)).nodes@.len() == (*old(self)).nodes@.len()
                &&& (*final(self)).nodes@[i] == (NodeRecord {
                    status: if probe is Up { NodeStatus::Online } else { NodeStatus::Offline },
                    last_latency_ms: match probe {
                        ProbeOutcome::Up(ms) => Some(ms),
                        ProbeOutcome::Down => None,
                    },
                    last_seen_at: if probe is Up { Some(now) } else { prev.last_seen_at },
                    country_code: if geo_cc is Some { geo_cc } else { prev.country_code },
                    country_name: if geo_cn is Some { geo_cn } else { prev.country_name },
                    ..prev
                })
                &&& forall|j: int|
                    0 <= j < (*old(self)).nodes@.len() && j != i ==> (*final(self)).nodes@[j]
                        == (*old(self)).nodes@[j]
            },
    {
        let i = match self.find_host(host) {
            Some(i) => i,
            None => { return; },
        };
        let ghost ns0 = self.nodes@;
        let mut n = self.nodes.remove(i);
        match probe {
            ProbeOutcome::Up(ms) => {
                n.status = NodeStatus::Online;
                n.last_latency_ms = Some(ms);
                n.last_seen_at = Some(now);
            },
            ProbeOutcome::Down => {
                n.status = NodeStatus::Offline;
                n.last_latency_ms = None;
            },
        }
        if geo_cc.is_some() {
            n.country_code = geo_cc;
        }
        if geo_cn.is_some() {
            n.country_name = geo_cn;
        }
        self.nodes.insert(i, n);
        proof {
            assert(self.nodes@ =~= ns0.update(i as int, self.nodes@[i as int]));
            assert forall|p: int, q: int| 0 <= p < q < self.nodes@.len() implies self.nodes@[
                p
            ].host@ != self.nodes@[q].host@ by {
                assert(self.nodes@[p].host@ == ns0[p].host@);
                assert(self.nodes@[q].host@ == ns0[q].host@);
            }
        }
    }

    /// Issue a challenge for a given nonce: refused without a public key or
    /// when the nonce is already taken; otherwise the challenge is stored
    /// with an expiry five minutes from now and returned.
    pub fn challenge(&mut self, req: &ChallengeReq, nonce: String, now: i64) -> (r: Result<
        ChallengeRes,
        RegError,
    >)
        requires
            (*old(self)).wf(),
            now <= i64::MAX - CHALLENGE_TTL_SECS,
        ensures
            (*final(self)).wf(),
            req.pubkey_b64@.len() == 0 ==> r == Result::<ChallengeRes, RegError>::Err(
                RegError::PubkeyRequired,
            ) && *final(self) == *old(self),
            req.pubkey_b64@.len() != 0 && has_nonce((*old(self)).challenges@, nonce@) ==> r
                == Result::<ChallengeRes, RegError>::Err(RegError::DuplicateNonce) && *final(self)
                == *old(self),
            req.pubkey_b64@.len() != 0 && !has_nonce((*old(self)).challenges@, nonce@) ==> {
                &&& r matches Ok(c) && c.nonce@ == nonce@ && c.expires_at == now + CHALLENGE_TTL_SECS
                &&& (*final(self)).challenges@.len() == (*old(self)).challenges@.len() + 1
                &&& (*final(self)).challenges@.last().nonce@ == nonce@
                &&& (*final(self)).challenges@.last().pubkey_b64@ == req.pubkey_b64@
                &&& (*final(self)).challenges@.last().expires_at == now + CHALLENGE_TTL_SECS
                &&& (*final(self)).challenges@.subrange(0, (*old(self)).challenges@.len() as int)
                    == (*old(self)).challenges@
            },
    {
        if req.pubkey_b64.as_str().unicode_len() == 0 {
            return Err(RegError::PubkeyRequired);
        }
        let mut i: usize = 0;
        while i < self.challenges.len()
            invariant
                *self == *old(self),
                self.wf(),
                req.pubkey_b64@.len() != 0,
                i <= self.challenges@.len(),
                forall|j: int| 0 <= j < i ==> self.challenges@[j].nonce@ != nonce@,
            decreases self.challenges@.len() - i,
        {
            if self.challenges[i].nonce == nonce {
                return Err(RegError::DuplicateNonce);
            }
            i = i + 1;
        }
        let expires_at = now + CHALLENGE_TTL_SECS;
        let res = ChallengeRes { nonce: nonce.clone(), expires_at };
        self.challenges.push(ChallengeRecord { nonce, pubkey_b64: req.pubkey_b64.clone(), expires_at });
        proof {
            assert((*final(self)).challenges@.subrange(0, (*old(self)).challenges@.len() as int)
                =~= (*old(self)).challenges@);
        }
        Ok(res)
    }

    /// Issue a challenge under a freshly drawn random nonce. Whatever the
    /// nonce came out as, the state changes exactly as `challenge` says; a
    /// collision with a stored nonce surfaces as `DuplicateNonce`.
    pub fn issue_challenge(&mut self, req: &ChallengeReq, now: i64) -> (r: Result<
        ChallengeRes,
        RegError,
    >)
        requires
            (*old(self)).wf(),
            now <= i64::MAX - CHALLENGE_TTL_SECS,
        ensures
            (*final(self)).wf(),
            req.pubkey_b64@.len() == 0 ==> r == Result::<ChallengeRes, RegError>::Err(
                RegError::PubkeyRequired,
            ) && *final(self) == *old(self),
            r matches Ok(c) ==> c.expires_at == now + CHALLENGE_TTL_SECS && c.nonce@.len() == 32
                && (*final(self)).challenges@.len() == (*old(self)).challenges@.len() + 1
                && (*final(self)).challenges@.last().nonce@ == c.nonce@
                && (*final(self)).challenges@.last().pubkey_b64@ == req.pubkey_b64@,
            req.pubkey_b64@.len() != 0 ==> (r matches Ok(_) || r == Result::<
                ChallengeRes,
                RegError,
            >::Err(RegError::DuplicateNonce)),
            r == Result::<ChallengeRes, RegError>::Err(RegError::DuplicateNonce)
                ==> exists|b: Seq<u8>|
                b.len() == 24 && has_nonce((*old(self)).challenges@, b64url_nopad_spec(b)),
    {
        let nonce = gen_nonce();
        self.challenge(req, nonce, now)
    }
}

/// Whether two byte strings hold the same bytes.
fn bytes_eq(a: &Vec<u8>, b: &Vec<u8>) -> (r: bool)
    ensures
        r == (a@ == b@),
{
    if a.len() != b.len() {
        proof {
            assert(a@.len() != b@.len());
        }
        return false;
    }
    let mut i: usize = 0;
    while i < a.len()
        invariant
            i <= a@.len(),
            a@.len() == b@.len(),
            forall|j: int| 0 <= j < i ==> a@[j] == b@[j],
        decreases a@.len() - i,
    {
        if a[i] != b[i] {
            return false;
        }
        i = i + 1;
    }
    proof {
        assert(a@ =~= b@);
    }
    true
}

/// A fresh random nonce: 24 random bytes in URL-safe unpadded base64,
/// thirty-two characters long.
pub fn gen_nonce() -> (r: String)
    ensures
        exists|b: Seq<u8>| b.len() == 24 && r@ == b64url_nopad_spec(b),
        r@.len() == 32,
{
    let b = random_bytes_24();
    let s = b64url_nopad_encode(&b);
    proof {
        assert(b@.len() == 24 && s@ == b64url_nopad_spec(b@));
    }
    s
}

/// What the directory lists for a node: every column the listing shows, and
/// neither the key binding nor the contact address.
pub struct NodeSummary {
    pub name: String,
    pub host: String,
    pub ip: String,
    pub api_base_url: String,
    pub protocol_version: String,
    pub features: String,
    pub country_code: Option<String>,
    pub country_name: Option<String>,
    pub last_seen_at: Option<i64>,
    pub last_latency_ms: Option<u32>,
    pub status: NodeStatus,
}

/// The listed view of a node row.
pub open spec fn summary_of(n: NodeRecord) -> NodeSummary {
    NodeSummary {
        name: n.name,
        host: n.host,
        ip: n.ip,
        api_base_url: n.api_base_url,
        protocol_version: n.protocol_version,
        features: n.features,
        country_code: n.country_code,
        country_name: n.country_name,
        last_seen_at: n.last_seen_at,
        last_latency_ms: n.last_latency_ms,
        status: n.status,
    }
}

/// The directory's rank of a status: online nodes come first.
pub open spec fn status_rank(s: NodeStatus) -> int {
    match s {
        NodeStatus::Online => 0,
        NodeStatus::Unknown => 1,
        NodeStatus::Offline => 2,
    }
}

/// Directory order: by status rank, then by name.
pub open spec fn dir_le(a: NodeSummary, b: NodeSummary) -> bool {
    status_rank(a.status) < status_rank(b.status) || (status_rank(a.status) == status_rank(
        b.status,
    ) && lex_le(a.name@, b.name@))
}

/// Insert a summary into a directory-ordered sequence, keeping the order.
pub open spec fn insert_dir(x: NodeSummary, s: Seq<NodeSummary>) -> Seq<NodeSummary>
    decreases s.len(),
{
    if s.len() == 0 {
        seq![x]
    } else if dir_le(x, s[0]) {
        seq![x] + s
    } else {
        seq![s[0]] + insert_dir(x, s.subrange(1, s.len() as int))
    }
}

/// The directory order of a sequence of summaries: insertion sort.
pub open spec fn sort_dir(s: Seq<NodeSummary>) -> Seq<NodeSummary>
    decreases s.len(),
{
    if s.len() == 0 {
        Seq::empty()
    } else {
        insert_dir(s[0], sort_dir(s.subrange(1, s.len() as int)))
    }
}

/// Whether `a` comes no later than `b` in the directory order.
fn dir_le_exec(a: &NodeSummary, b: &NodeSummary) -> (r: bool)
    ensures
        r == dir_le(*a, *b),
{
    let ra: i32 = match a.status {
        NodeStatus::Online => 0,
        NodeStatus::Unknown => 1,
        NodeStatus::Offline => 2,
    };
    let rb: i32 = match b.status {
        NodeStatus::Online => 0,
        NodeStatus::Unknown => 1,
        NodeStatus::Offline => 2,
    };
    if ra < rb {
        true
    } else if ra > rb {
        false
    } else {
        lex_le_exec(a.name.as_str(), b.name.as_str())
    }
}

/// Insert a summary into a directory-ordered vector at its place.
fn insert_dir_vec(x: NodeSummary, v: Vec<NodeSummary>) -> (r: Vec<NodeSummary>)
    ensures
        r@ == insert_dir(x, v@),
{
    let ghost v0 = v@;
    let mut v = v;
    let mut p: usize = 0;
    loop
        invariant
            p <= v.len(),
            v@ == v0,
            forall|j: int| 0 <= j < p ==> !dir_le(x, #[trigger] v@[j]),
        ensures
            p <= v.len(),
            v@ == v0,
            forall|j: int| 0 <= j < p ==> !dir_le(x, #[trigger] v@[j]),
            p == v.len() || dir_le(x, v@[p as int]),
        decreases v.len() - p,
    {
        if p == v.len() {
            break;
        }
        if dir_le_exec(&x, &v[p]) {
            break;
        }
        p = p + 1;
    }
    proof {
        lemma_insert_dir_at(x, v0, p as int);
    }
    v.insert(p, x);
    proof {
        assert(v@ =~= v0.subrange(0, p as int) + seq![x] + v0.subrange(0 + p as int, v0.len() as int));
    }
    v
}

/// Inserting at the first position not below `x` matches the
/// specification's insertion.
proof fn lemma_insert_dir_at(x: NodeSummary, s: Seq<NodeSummary>, p: int)
    requires
        0 <= p <= s.len(),
        forall|j: int| 0 <= j < p ==> !dir_le(x, #[trigger] s[j]),
        p == s.len() || dir_le(x, s[p]),
    ensures
        insert_dir(x, s) == s.subrange(0, p) + seq![x] + s.subrange(p, s.len() as int),
    decreases p,
{
    if p == 0 {
        if s.len() == 0 {
            assert(insert_dir(x, s) =~= s.subrange(0, 0) + seq![x] + s.subrange(0, 0));
        } else {
            assert(insert_dir(x, s) =~= s.subrange(0, 0) + seq![x] + s.subrange(0, s.len() as int));
        }
    } else {
        let tail = s.subrange(1, s.len() as int);
        assert forall|j: int| 0 <= j < p - 1 implies !dir_le(x, #[trigger] tail[j]) by {
            assert(tail[j] == s[j + 1]);
        }
        if p < s.len() {
            assert(tail[p - 1] == s[p]);
        }
        lemma_insert_dir_at(x, tail, p - 1);
        assert(insert_dir(x, s) =~= s.subrange(0, p) + seq![x] + s.subrange(p, s.len() as int));
    }
}

/// A clone of an optional string.
fn clone_opt_string(s: &Option<String>) -> (r: Option<String>)
    ensures
        r == *s,
{
    match s {
        Some(t) => Some(t.clone()),
        None => None,
    }
}

impl Registry {
    /// The directory listing: one summary per node, online nodes first,
    /// then by name.
    pub fn directory(&self) -> (r: Vec<NodeSummary>)
        ensures
            r@ == sort_dir(self.nodes@.map_values(|n: NodeRecord| summary_of(n))),
    {
        let ghost mapped = self.nodes@.map_values(|n: NodeRecord| summary_of(n));
        let mut raw: Vec<NodeSummary> = Vec::new();
        let mut i: usize = 0;
        while i < self.nodes.len()
            invariant
                i <= self.nodes@.len(),
                raw@.len() == i,
                mapped == self.nodes@.map_values(|n: NodeRecord| summary_of(n)),
                forall|j: int| 0 <= j < i ==> raw@[j] == mapped[j],
            decreases self.nodes@.len() - i,
        {
            let n = &self.nodes[i];
            let s = NodeSummary {
                name: n.name.clone(),
                host: n.host.clone(),
                ip: n.ip.clone(),
                api_base_url: n.api_base_url.clone(),
                protocol_version: n.protocol_version.clone(),
                features: n.features.clone(),
                country_code: clone_opt_string(&n.country_code),
                country_name: clone_opt_string(&n.country_name),
                last_seen_at: n.last_seen_at,
                last_latency_ms: n.last_latency_ms,
                status: n.status,
            };
            proof {
                assert(s == summary_of(self.nodes@[i as int]));
                assert(mapped[i as int] == summary_of(self.nodes@[i as int]));
            }
            raw.push(s);
            i = i + 1;
        }
        proof {
            assert(raw@ =~= mapped);
        }
        let ghost raw0 = raw@;
        let mut v = raw;
        let mut acc: Vec<NodeSummary> = Vec::new();
        proof {
            assert(v@ =~= raw0.subrange(0, v@.len() as int));
            assert(raw0.subrange(v@.len() as int, raw0.len() as int).len() == 0);
        }
        while v.len() > 0
            invariant
                v@.len() <= raw0.len(),
                v@ == raw0.subrange(0, v@.len() as int),
                acc@ == sort_dir(raw0.subrange(v@.len() as int, raw0.len() as int)),
            decreases v.len(),
        {
            let ghost k = v@.len() as int;
            let ghost prev = v@;
            let x = v.remove(v.len() - 1);
            proof {
                assert(prev == raw0.subrange(0, k));
                assert(raw0.subrange(0, k)[k - 1] == raw0[k - 1]);
                assert(x == raw0[k - 1]);
                assert(v@ =~= raw0.subrange(0, k - 1));
            }
            acc = insert_dir_vec(x, acc);
            proof {
                let rest = raw0.subrange(k - 1, raw0.len() as int);
                assert(rest[0] == raw0[k - 1]);
                assert(rest.subrange(1, rest.len() as int) =~= raw0.subrange(k, raw0.len() as int));
                assert(acc@ == sort_dir(rest));
            }
        }
        proof {
            assert(raw0.subrange(0, raw0.len() as int) =~= raw0);
        }
        acc
    }
}

/// Trust-on-first-use: when a host's stored key binding differs from the
/// request's decoded key, registration never succeeds, whatever the rest of
/// the request looks like — some check of the cascade refuses it.
pub proof fn lemma_conflict_never_registers(
    cs: Seq<ChallengeRecord>,
    ns: Seq<NodeRecord>,
    req: RegisterReq,
    ip: Option<String>,
    now: i64,
)
    requires
        has_host(ns, get_str(req.payload, key_host())->0@),
        b64_decode_spec(req.pubkey_b64@) matches Some(pk) && ns[host_idx(
            ns,
            get_str(req.payload, key_host())->0@,
        )].pubkey@ != pk,
    ensures
        register_error(cs, ns, req, ip, now) is Some,
{
}

/// A consumed nonce cannot be redeemed twice: a successful registration
/// removes the one challenge row carrying its nonce, and a later
/// registration with the same nonce is refused as unknown.
pub proof fn lemma_nonce_single_use(
    cs: Seq<ChallengeRecord>,
    nonce: Seq<char>,
    ns: Seq<NodeRecord>,
    req: RegisterReq,
    ip: Option<String>,
    now: i64,
)
    requires
        forall|i: int, j: int| 0 <= i < j < cs.len() ==> cs[i].nonce@ != cs[j].nonce@,
        has_nonce(cs, nonce),
        req.nonce@ == nonce,
    ensures
        !has_nonce(cs.remove(nonce_idx(cs, nonce)), nonce),
        register_error(cs.remove(nonce_idx(cs, nonce)), ns, req, ip, now) == Some(
            RegError::UnknownNonce,
        ),
{
    let k = nonce_idx(cs, nonce);
    assert(0 <= k < cs.len() && cs[k].nonce@ == nonce);
    let c2 = cs.remove(k);
    assert forall|p: int| 0 <= p < c2.len() implies (#[trigger] c2[p]).nonce@ != nonce by {
        if p < k {
            assert(c2[p] == cs[p]);
            assert(cs[p].nonce@ != cs[k].nonce@);
        } else {
            assert(c2[p] == cs[p + 1]);
            assert(cs[p + 1].nonce@ != cs[k].nonce@);
        }
    }
    if has_nonce(c2, nonce) {
        let p = choose|p: int| 0 <= p < c2.len() && c2[p].nonce@ == nonce;
        assert(false);
    }
}

} // verus!
