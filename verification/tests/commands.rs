use shellman::commands::{handle_add, handle_rm, handle_use, SSHProtocol};
use shellman::registry::{SSHRegistry, Server};

fn server(id: u32, name: &str, user: &str, host: &str, key: Option<&str>) -> Server {
    Server {
        id,
        name: name.to_string(),
        user: user.to_string(),
        host: host.to_string(),
        existing_ssh_key: key.map(|k| k.to_string()),
    }
}

#[test]
fn scenario_add_with_existing_key_on_empty_registry() {
    let mut reg = SSHRegistry::empty();
    let id = handle_add(
        &mut reg,
        "alice".to_string(),
        "example.com".to_string(),
        String::new(),
        Some("~/.ssh/id_alice".to_string()),
    )
    .unwrap();
    assert_eq!(id, 1);
    let servers = reg.servers();
    assert_eq!(servers.len(), 1);
    assert_eq!(servers[0].id, 1);
    assert_eq!(servers[0].name, "alice@example.com");
    assert_eq!(servers[0].user, "alice");
    assert_eq!(servers[0].host, "example.com");
    assert_eq!(servers[0].existing_ssh_key.as_deref(), Some("~/.ssh/id_alice"));
    // A profile with its own key is never system-managed, so no provisioning
    // or revocation applies to it.
    assert!(!servers[0].is_system_managed());
}

#[test]
fn scenario_new_id_is_max_plus_one_not_first_gap() {
    let mut reg = SSHRegistry::empty();
    reg.add(&server(1, "a", "alice", "one.example.com", None)).unwrap();
    reg.add(&server(3, "c", "carol", "three.example.com", None)).unwrap();
    let id = handle_add(
        &mut reg,
        "bob".to_string(),
        "10.0.0.5".to_string(),
        String::new(),
        None,
    )
    .unwrap();
    assert_eq!(id, 4);
}

#[test]
fn scenario_rm_system_managed_profile_requests_revocation() {
    let mut reg = SSHRegistry::empty();
    reg.add(&server(4, "d", "dave", "four.example.com", None)).unwrap();
    let out = handle_rm(&mut reg, 4).unwrap();
    assert_eq!(out.server.id, 4);
    assert_eq!(out.revoke_host.as_deref(), Some("four.example.com"));
    assert_eq!(reg.servers().len(), 0);
    let err = handle_rm(&mut reg, 4).unwrap_err();
    assert_eq!(err.id, 4);
}

#[test]
fn rm_profile_with_own_key_requests_no_revocation() {
    let mut reg = SSHRegistry::empty();
    reg.add(&server(1, "a", "alice", "example.com", Some("/k"))).unwrap();
    let out = handle_rm(&mut reg, 1).unwrap();
    assert!(out.revoke_host.is_none());
}

#[test]
fn scenario_use_unknown_id_launches_nothing() {
    let reg = SSHRegistry::empty();
    let err = handle_use(&reg, 99, false, "/default/key").unwrap_err();
    assert_eq!(err.id, 99);
}

#[test]
fn scenario_second_identical_add_fails_with_duplicate() {
    let mut reg = SSHRegistry::empty();
    handle_add(
        &mut reg,
        "bob".to_string(),
        "example.com".to_string(),
        String::new(),
        None,
    )
    .unwrap();
    let err = handle_add(
        &mut reg,
        "bob".to_string(),
        "example.com".to_string(),
        String::new(),
        None,
    )
    .unwrap_err();
    assert_eq!(err.user, "bob");
    assert_eq!(err.host, "example.com");
    let matching: Vec<_> = reg
        .servers()
        .iter()
        .filter(|s| s.name == "bob@example.com")
        .collect();
    assert_eq!(matching.len(), 1);
}

#[test]
fn use_resolves_profile_key_over_default() {
    let mut reg = SSHRegistry::empty();
    reg.add(&server(1, "a", "alice", "example.com", Some("/own/key"))).unwrap();
    let plan = handle_use(&reg, 1, false, "/default/key").unwrap();
    assert_eq!(plan.host, "example.com");
    assert_eq!(plan.user, "alice");
    assert_eq!(plan.private_key_path, "/own/key");
    assert_eq!(plan.protocol, SSHProtocol::SSH);
}

#[test]
fn use_falls_back_to_default_key_and_honours_sftp() {
    let mut reg = SSHRegistry::empty();
    reg.add(&server(1, "a", "alice", "example.com", None)).unwrap();
    let plan = handle_use(&reg, 1, true, "/default/key").unwrap();
    assert_eq!(plan.private_key_path, "/default/key");
    assert_eq!(plan.protocol, SSHProtocol::SFTP);
}

#[test]
fn explicit_name_is_kept_and_empty_name_defaults() {
    let mut reg = SSHRegistry::empty();
    handle_add(
        &mut reg,
        "alice".to_string(),
        "example.com".to_string(),
        "work box".to_string(),
        None,
    )
    .unwrap();
    handle_add(
        &mut reg,
        "bob".to_string(),
        "example.com".to_string(),
        String::new(),
        None,
    )
    .unwrap();
    assert_eq!(reg.servers()[0].name, "work box");
    assert_eq!(reg.servers()[1].name, "bob@example.com");
}
