use shellman::registry::{SSHRegistry, Server};

fn server(id: u32, name: &str, user: &str, host: &str, key: Option<&str>) -> Server {
    Server {
        id,
        name: name.to_string(),
        user: user.to_string(),
        host: host.to_string(),
        existing_ssh_key: key.map(|k| k.to_string()),
    }
}

#[test]
fn empty_registry_has_no_servers() {
    let reg = SSHRegistry::empty();
    assert_eq!(reg.servers().len(), 0);
    assert_eq!(reg.max_id(), 0);
}

#[test]
fn add_appends_in_order() {
    let mut reg = SSHRegistry::empty();
    reg.add(&server(1, "a", "alice", "one.example.com", None)).unwrap();
    reg.add(&server(2, "b", "bob", "two.example.com", None)).unwrap();
    let servers = reg.servers();
    assert_eq!(servers.len(), 2);
    assert_eq!(servers[0].user, "alice");
    assert_eq!(servers[1].user, "bob");
    assert_eq!(reg.max_id(), 2);
}

#[test]
fn add_duplicate_pair_fails_and_leaves_registry_unchanged() {
    let mut reg = SSHRegistry::empty();
    reg.add(&server(1, "a", "bob", "example.com", None)).unwrap();
    let before = shellman::snapshot::to_json(&reg);
    let err = reg.add(&server(2, "b", "bob", "example.com", None)).unwrap_err();
    assert_eq!(err.user, "bob");
    assert_eq!(err.host, "example.com");
    let after = shellman::snapshot::to_json(&reg);
    assert_eq!(before, after);
    assert_eq!(reg.servers().len(), 1);
}

#[test]
fn same_user_on_other_host_is_no_duplicate() {
    let mut reg = SSHRegistry::empty();
    reg.add(&server(1, "a", "bob", "one.example.com", None)).unwrap();
    reg.add(&server(2, "b", "bob", "two.example.com", None)).unwrap();
    assert_eq!(reg.servers().len(), 2);
}

#[test]
fn remove_missing_id_fails_and_leaves_registry_unchanged() {
    let mut reg = SSHRegistry::empty();
    reg.add(&server(1, "a", "alice", "example.com", None)).unwrap();
    let before = shellman::snapshot::to_json(&reg);
    let err = reg.remove(7).unwrap_err();
    assert_eq!(err.id, 7);
    assert_eq!(shellman::snapshot::to_json(&reg), before);
    assert_eq!(reg.servers().len(), 1);
}

#[test]
fn remove_takes_out_exactly_the_named_id() {
    let mut reg = SSHRegistry::empty();
    reg.add(&server(1, "a", "alice", "one.example.com", None)).unwrap();
    reg.add(&server(2, "b", "bob", "two.example.com", None)).unwrap();
    reg.add(&server(3, "c", "carol", "three.example.com", None)).unwrap();
    let removed = reg.remove(2).unwrap();
    assert_eq!(removed.id, 2);
    assert_eq!(removed.user, "bob");
    let servers = reg.servers();
    assert_eq!(servers.len(), 2);
    assert!(servers.iter().all(|s| s.id != 2));
    assert!(servers.iter().any(|s| s.id == 1 && s.user == "alice"));
    assert!(servers.iter().any(|s| s.id == 3 && s.user == "carol"));
}

#[test]
fn find_by_id_returns_the_profile() {
    let mut reg = SSHRegistry::empty();
    reg.add(&server(5, "a", "alice", "example.com", Some("/k"))).unwrap();
    let found = reg.find_by_id(5).unwrap();
    assert_eq!(found.user, "alice");
    assert!(reg.find_by_id(6).is_none());
}

#[test]
fn from_servers_rejects_duplicate_ids() {
    let list = vec![
        server(1, "a", "alice", "one.example.com", None),
        server(1, "b", "bob", "two.example.com", None),
    ];
    assert!(SSHRegistry::from_servers(list).is_err());
}

#[test]
fn from_servers_rejects_duplicate_pairs_and_invalid_profiles() {
    let dup = vec![
        server(1, "a", "bob", "example.com", None),
        server(2, "b", "bob", "example.com", None),
    ];
    assert!(SSHRegistry::from_servers(dup).is_err());
    let zero_id = vec![server(0, "a", "alice", "example.com", None)];
    assert!(SSHRegistry::from_servers(zero_id).is_err());
    let empty_user = vec![server(1, "a", "", "example.com", None)];
    assert!(SSHRegistry::from_servers(empty_user).is_err());
    let good = vec![server(1, "a", "alice", "example.com", None)];
    assert!(SSHRegistry::from_servers(good).is_ok());
}

#[test]
fn duplicate_error_message_names_pair() {
    let mut reg = SSHRegistry::empty();
    reg.add(&server(1, "a", "bob", "example.com", None)).unwrap();
    let err = reg.add(&server(2, "b", "bob", "example.com", None)).unwrap_err();
    assert_eq!(
        err.message(),
        "Server with host example.com and user bob already exists"
    );
}

#[test]
fn not_found_error_message_names_id() {
    let mut reg = SSHRegistry::empty();
    let err = reg.remove(42).unwrap_err();
    assert_eq!(err.message(), "Server with ID 42 not found");
}
