use fedreg::registry::{NodeRecord, NodeStatus, Registry};

fn node(name: &str, host: &str, status: NodeStatus) -> NodeRecord {
    NodeRecord {
        host: host.to_string(),
        name: name.to_string(),
        api_base_url: format!("http://{host}/api"),
        protocol_version: "1".to_string(),
        features: "{}".to_string(),
        contact_email: String::new(),
        pubkey: vec![1],
        ip: "192.0.2.1".to_string(),
        status,
        last_seen_at: None,
        last_latency_ms: None,
        country_code: None,
        country_name: None,
    }
}

#[test]
fn directory_lists_online_first_then_by_name() {
    let mut reg = Registry::new();
    reg.nodes.push(node("zeta", "h1", NodeStatus::Online));
    reg.nodes.push(node("beta", "h2", NodeStatus::Offline));
    reg.nodes.push(node("alpha", "h3", NodeStatus::Online));
    reg.nodes.push(node("mid", "h4", NodeStatus::Unknown));
    let d = reg.directory();
    let names: Vec<&str> = d.iter().map(|s| s.name.as_str()).collect();
    assert_eq!(names, vec!["alpha", "zeta", "mid", "beta"]);
    assert_eq!(d[0].status, NodeStatus::Online);
    assert_eq!(d[3].status, NodeStatus::Offline);
}

#[test]
fn directory_projects_the_listed_columns() {
    let mut reg = Registry::new();
    let mut n = node("a", "h1", NodeStatus::Online);
    n.country_code = Some("DE".to_string());
    n.last_latency_ms = Some(12);
    reg.nodes.push(n);
    let d = reg.directory();
    assert_eq!(d.len(), 1);
    assert_eq!(d[0].host, "h1");
    assert_eq!(d[0].country_code.as_deref(), Some("DE"));
    assert_eq!(d[0].last_latency_ms, Some(12));
}
